//! What holds of the scheduler at every step: it works on nodes that can be
//! reached, places each once, forgets none, and comes to an end.

use super::order::{
    awaited, cfg_succs, coming, deferred, done, entering, flat, frame_node, known, lemma_cfg_succs,
    lemma_coming_step, lemma_deferred_covers, lemma_deferred_keeps, lemma_deferred_sound,
    lemma_deferred_weight, lemma_known_producer, lemma_known_succ, lemma_waiting_for, logged,
    order_of, phi_kind, pledged, pulled, sched_closed, sched_once, sched_sound, sink_ok, step,
    sunk, Frame, Sched, Sink,
};
use crate::entity_set::lemma_push_member;
use crate::graph::model::GraphModel;
use crate::graph::walk::{feeds, lemma_closed_holds_reachable, reachable, steps_to};
use crate::node::NodeId;
use vstd::prelude::*;

verus! {

/// The nodes of a log.
pub open spec fn log_nodes(log: Seq<(NodeId, Sink)>) -> Seq<NodeId> {
    Seq::new(log.len(), |i: int| log[i].0)
}

pub(crate) proof fn lemma_sunk_push(log: Seq<(NodeId, Sink)>, n: NodeId, sink: Sink, other: Sink)
    ensures
        sunk(log.push((n, sink)), other) == if sink == other {
            sunk(log, other).push(n)
        } else {
            sunk(log, other)
        },
{
    assert(log.push((n, sink)).drop_last() =~= log);
}

/// Placing in the tail leaves the blocks alone.
pub(crate) proof fn lemma_flat_tail(log: Seq<(NodeId, Sink)>, rpo: Seq<NodeId>, n: NodeId, k: int)
    ensures
        flat(log.push((n, None)), rpo, k) == flat(log, rpo, k),
    decreases k,
{
    if k > 0 {
        lemma_flat_tail(log, rpo, n, k - 1);
        lemma_sunk_push(log, n, None, Some(rpo[k - 1]));
    }
}

/// Placing in the tail appends to the order.
pub(crate) proof fn lemma_order_tail(log: Seq<(NodeId, Sink)>, rpo: Seq<NodeId>, n: NodeId)
    ensures
        order_of(log.push((n, None)), rpo) == order_of(log, rpo).push(n),
{
    lemma_flat_tail(log, rpo, n, rpo.len() as int);
    lemma_sunk_push(log, n, None, None);
    assert(order_of(log.push((n, None)), rpo) =~= order_of(log, rpo).push(n));
}

proof fn lemma_flat_block(
    log: Seq<(NodeId, Sink)>,
    rpo: Seq<NodeId>,
    n: NodeId,
    b: NodeId,
    k: int,
)
    requires
        rpo.no_duplicates(),
        0 <= k <= rpo.len(),
    ensures
        flat(log.push((n, Some(b))), rpo, k).to_multiset() == if rpo.take(k).contains(b) {
            flat(log, rpo, k).to_multiset().insert(n)
        } else {
            flat(log, rpo, k).to_multiset()
        },
    decreases k,
{
    broadcast use vstd::seq_lib::group_to_multiset_ensures;

    if k > 0 {
        let next = log.push((n, Some(b)));
        lemma_flat_block(log, rpo, n, b, k - 1);
        lemma_sunk_push(log, n, Some(b), Some(rpo[k - 1]));
        vstd::seq_lib::lemma_multiset_commutative(flat(next, rpo, k - 1), sunk(next, Some(rpo[k - 1])));
        vstd::seq_lib::lemma_multiset_commutative(flat(log, rpo, k - 1), sunk(log, Some(rpo[k - 1])));
        assert(rpo.take(k) =~= rpo.take(k - 1).push(rpo[k - 1]));
        lemma_push_member(rpo.take(k - 1), rpo[k - 1], b);
        if rpo[k - 1] == b {
            if rpo.take(k - 1).contains(b) {
                let x = rpo.take(k - 1).index_of(b);
                assert(rpo[x] == rpo[k - 1]);
            }
            assert(flat(next, rpo, k).to_multiset() =~= flat(log, rpo, k).to_multiset().insert(n));
        } else {
            if rpo.take(k - 1).contains(b) {
                assert(flat(next, rpo, k).to_multiset() =~= flat(log, rpo, k).to_multiset().insert(
                    n,
                ));
            } else {
                assert(flat(next, rpo, k).to_multiset() =~= flat(log, rpo, k).to_multiset());
            }
        }
    }
}

proof fn lemma_flat_nothing(rpo: Seq<NodeId>, k: int)
    ensures
        flat(Seq::empty(), rpo, k) == Seq::<NodeId>::empty(),
    decreases k,
{
    if k > 0 {
        lemma_flat_nothing(rpo, k - 1);
        assert(flat(Seq::empty(), rpo, k) =~= Seq::<NodeId>::empty());
    }
}

/// The order holds each placement once.
proof fn lemma_order_multiset(log: Seq<(NodeId, Sink)>, rpo: Seq<NodeId>)
    requires
        rpo.no_duplicates(),
        forall|i: int| 0 <= i < log.len() ==> sink_ok(rpo, false, (#[trigger] log[i]).1),
    ensures
        order_of(log, rpo).to_multiset() == log_nodes(log).to_multiset(),
    decreases log.len(),
{
    broadcast use vstd::seq_lib::group_to_multiset_ensures;

    if log.len() == 0 {
        lemma_flat_nothing(rpo, rpo.len() as int);
        assert(log =~= Seq::empty());
        assert(order_of(log, rpo) =~= Seq::empty());
        assert(log_nodes(log) =~= Seq::empty());
    } else {
        let rest = log.drop_last();
        let (n, sink) = log.last();
        assert(log =~= rest.push((n, sink)));
        assert forall|i: int| 0 <= i < rest.len() implies sink_ok(
            rpo,
            false,
            (#[trigger] rest[i]).1,
        ) by {
            assert(rest[i] == log[i]);
        }
        lemma_order_multiset(rest, rpo);
        assert(log_nodes(log) =~= log_nodes(rest).push(n));
        assert(sink_ok(rpo, false, log[log.len() - 1].1));
        match sink {
            None => {
                lemma_order_tail(rest, rpo, n);
            },
            Some(b) => {
                lemma_flat_block(rest, rpo, n, b, rpo.len() as int);
                assert(rpo.take(rpo.len() as int) =~= rpo);
                lemma_sunk_push(rest, n, sink, None);
                vstd::seq_lib::lemma_multiset_commutative(
                    flat(log, rpo, rpo.len() as int),
                    sunk(log, None),
                );
                vstd::seq_lib::lemma_multiset_commutative(
                    flat(rest, rpo, rpo.len() as int),
                    sunk(rest, None),
                );
                assert(order_of(log, rpo).to_multiset() =~= order_of(rest, rpo).to_multiset().insert(
                    n,
                ));
            },
        }
    }
}

/// The order lists the placed nodes, each once.
pub(crate) proof fn lemma_order(log: Seq<(NodeId, Sink)>, rpo: Seq<NodeId>)
    requires
        rpo.no_duplicates(),
        forall|i: int| 0 <= i < log.len() ==> sink_ok(rpo, false, (#[trigger] log[i]).1),
        forall|i: int, j: int|
            #![trigger log[i], log[j]]
            0 <= i < j < log.len() ==> log[i].0 != log[j].0,
    ensures
        order_of(log, rpo).no_duplicates(),
        order_of(log, rpo).len() == log.len(),
        forall|n: NodeId| #[trigger] order_of(log, rpo).contains(n) <==> logged(log, n),
{
    broadcast use vstd::seq_lib::group_to_multiset_ensures;

    let order = order_of(log, rpo);
    let nodes = log_nodes(log);
    lemma_order_multiset(log, rpo);
    assert forall|i: int, j: int| 0 <= i < nodes.len() && 0 <= j < nodes.len() && i != j implies nodes[i]
        != nodes[j] by {
        if i < j {
            assert(log[i].0 != log[j].0);
        } else {
            assert(log[j].0 != log[i].0);
        }
    }
    nodes.lemma_multiset_has_no_duplicates();
    order.lemma_multiset_has_no_duplicates_conv();
    assert(order.to_multiset().len() == nodes.to_multiset().len());
    assert forall|n: NodeId| #[trigger] order.contains(n) <==> logged(log, n) by {
        assert(order.contains(n) <==> order.to_multiset().count(n) > 0);
        assert(nodes.contains(n) <==> nodes.to_multiset().count(n) > 0);
        if nodes.contains(n) {
            let i = nodes.index_of(n);
            assert(log[i].0 == n);
        }
        if logged(log, n) {
            let i = choose|i: int| 0 <= i < log.len() && (#[trigger] log[i]).0 == n;
            assert(nodes[i] == n);
        }
    }
}

/// Every step works on nodes that can be reached.
pub(crate) proof fn lemma_step_sound(g: GraphModel, entry: NodeId, rpo: Seq<NodeId>, s: Sched)
    requires
        g.valid(),
        forall|i: int| 0 <= i < rpo.len() ==> known(g, entry, #[trigger] rpo[i]),
        rpo.no_duplicates(),
        sched_sound(g, entry, rpo, s),
        sched_once(s),
    ensures
        sched_sound(g, entry, rpo, step(g, rpo, s)),
{
    let t = step(g, rpo, s);
    if s.stack.len() > 0 {
        let rest = s.stack.drop_last();
        let top = s.stack.len() - 1;
        assert(known(g, entry, frame_node(s.stack[top])));
        assert forall|i: int| 0 <= i < rest.len() implies known(
            g,
            entry,
            frame_node(#[trigger] rest[i]),
        ) by {
            assert(rest[i] == s.stack[i]);
        }
        match s.stack.last() {
            Frame::Enter(node) => {},
            Frame::Resume(node, slot) => {
                if !phi_kind(g.kind(node)) && slot < g.ins(node).len() {
                    lemma_known_producer(g, entry, node, slot as int);
                } else if phi_kind(g.kind(node)) {
                    let k = g.ins(node).len() as int;
                    let d = deferred(g, rpo, s, node, k);
                    lemma_deferred_keeps(g, rpo, s, node, k);
                    lemma_deferred_sound(g, entry, rpo, s, node, k);
                    let more = entering(d.here);
                    assert forall|i: int| 0 <= i < t.stack.len() implies known(
                        g,
                        entry,
                        frame_node(#[trigger] t.stack[i]),
                    ) by {
                        if i >= rest.len() {
                            assert(t.stack[i] == more[i - rest.len()]);
                            assert(known(g, entry, d.here[d.here.len() - 1 - (i - rest.len())]));
                        } else {
                            assert(t.stack[i] == rest[i]);
                        }
                    }
                    assert forall|i: int| 0 <= i < t.jobs.len() implies known(
                        g,
                        entry,
                        (#[trigger] t.jobs[i]).0,
                    ) by {
                        if i < s.jobs.len() {
                            assert(t.jobs[i] == s.jobs[i]);
                        }
                    }
                    assert forall|i: int| t.next_job <= i < t.jobs.len() implies sink_ok(
                        rpo,
                        t.sealed,
                        (#[trigger] t.jobs[i]).1,
                    ) by {
                        if i < s.jobs.len() {
                            assert(t.jobs[i] == s.jobs[i]);
                        }
                    }
                    assert forall|i: int| 0 <= i < t.waiting.len() implies known(
                        g,
                        entry,
                        (#[trigger] t.waiting[i]).1,
                    ) && rpo.contains(t.waiting[i].0) by {
                        if i < s.waiting.len() {
                            assert(t.waiting[i] == s.waiting[i]);
                        }
                    }
                }
            },
        }
    } else if s.next_job < s.jobs.len() {
        assert(known(g, entry, s.jobs[s.next_job as int].0));
    } else if s.next_due < s.due.len() {
        assert(known(g, entry, s.due[s.next_due as int]));
    } else if !s.sealed {
        if s.at < rpo.len() {
            assert(rpo.contains(rpo[s.at as int]));
            if s.stage == 1 {
                lemma_waiting_for(s.waiting, rpo[s.at as int]);
                assert forall|i: int| 0 <= i < t.due.len() implies known(
                    g,
                    entry,
                    #[trigger] t.due[i],
                ) by {
                    let w = choose|w: int|
                        0 <= w < s.waiting.len() && s.waiting[w] == (rpo[s.at as int], t.due[i]);
                    assert(known(g, entry, s.waiting[w].1));
                }
            }
        }
    } else if s.at < order_of(s.log, rpo).len() && s.stage == 0 {
        lemma_order(s.log, rpo);
        let node = order_of(s.log, rpo)[s.at as int];
        assert(order_of(s.log, rpo).contains(node));
        assert(logged(s.log, node));
        let i = choose|i: int| 0 <= i < s.log.len() && (#[trigger] s.log[i]).0 == node;
        assert(s.visited.contains(s.log[i].0));
        let x = s.visited.index_of(node);
        assert(known(g, entry, s.visited[x]));
        assert forall|k: int| 0 <= k < t.due.len() implies known(g, entry, #[trigger] t.due[k]) by {
            lemma_known_succ(g, entry, node, k);
        }
    }
}

/// Every step places a node once.
pub(crate) proof fn lemma_step_once(g: GraphModel, rpo: Seq<NodeId>, s: Sched)
    requires
        sched_once(s),
    ensures
        sched_once(step(g, rpo, s)),
{
    let t = step(g, rpo, s);
    if s.stack.len() > 0 {
        let rest = s.stack.drop_last();
        let top = s.stack.len() - 1;
        match s.stack.last() {
            Frame::Enter(node) => {
                lemma_once_enter(g, rpo, s, node);
            },
            Frame::Resume(node, slot) => {
                if !phi_kind(g.kind(node)) && slot < g.ins(node).len() {
                    lemma_once_resume(g, rpo, s, node, slot);
                } else {
                    lemma_once_place(g, rpo, s, node, slot);
                }
            },
        }
    }
}

proof fn lemma_once_enter(g: GraphModel, rpo: Seq<NodeId>, s: Sched, node: NodeId)
    requires
        sched_once(s),
        s.stack.len() > 0,
        s.stack.last() == Frame::Enter(node),
    ensures
        sched_once(pulled(g, rpo, s)),
{
    let t = pulled(g, rpo, s);
    let rest = s.stack.drop_last();
    let top = s.stack.len() - 1;
    assert forall|n: NodeId| t.visited.contains(n) <==> s.visited.contains(n) || n == node by {
        lemma_push_member(s.visited, node, n);
    }
    if !s.visited.contains(node) {
        assert forall|i: int, j: int| 0 <= i < t.visited.len() && 0 <= j < t.visited.len() && i != j implies t.visited[i] != t.visited[j] by {
            if j == s.visited.len() {
                assert(s.visited.contains(s.visited[i]));
            } else if i == s.visited.len() {
                assert(s.visited.contains(s.visited[j]));
            }
        }
        if logged(s.log, node) {
            let i = choose|i: int| 0 <= i < s.log.len() && (#[trigger] s.log[i]).0 == node;
            assert(s.visited.contains(s.log[i].0));
        }
    }
    assert forall|i: int| 0 <= i < t.stack.len() && (#[trigger] t.stack[i]) is Resume implies t.visited.contains(frame_node(t.stack[i])) && !logged(t.log, frame_node(t.stack[i])) by {
        if i < top {
            assert(t.stack[i] == s.stack[i]);
        }
    }
    assert forall|i: int, j: int|
        #![trigger t.stack[i], t.stack[j]]
        0 <= i < j < t.stack.len() && t.stack[i] is Resume && t.stack[j] is Resume implies frame_node(t.stack[i]) != frame_node(t.stack[j]) by {
        assert(t.stack[i] == s.stack[i]);
        if j < top {
            assert(t.stack[j] == s.stack[j]);
        }
    }
    assert forall|n: NodeId| #[trigger] t.visited.contains(n) implies logged(t.log, n) || exists|i: int|
        0 <= i < t.stack.len() && (#[trigger] t.stack[i]) is Resume && frame_node(t.stack[i]) == n by {
        if s.visited.contains(n) {
            if !logged(s.log, n) {
                let i = choose|i: int|
                    0 <= i < s.stack.len() && (#[trigger] s.stack[i]) is Resume && frame_node(
                        s.stack[i],
                    ) == n;
                assert(t.stack[i] == s.stack[i]);
            }
        } else {
            assert(t.stack[top] == Frame::Resume(node, 0));
        }
    }
}

proof fn lemma_once_resume(g: GraphModel, rpo: Seq<NodeId>, s: Sched, node: NodeId, slot: usize)
    requires
        sched_once(s),
        s.stack.len() > 0,
        s.stack.last() == Frame::Resume(node, slot),
        !phi_kind(g.kind(node)),
        slot < g.ins(node).len(),
    ensures
        sched_once(pulled(g, rpo, s)),
{
    let t = pulled(g, rpo, s);
    let rest = s.stack.drop_last();
    let top = s.stack.len() - 1;
    assert(s.stack[top] == Frame::Resume(node, slot));
    assert(t.stack[top] == Frame::Resume(node, (slot + 1) as usize));
    assert forall|i: int| 0 <= i < top implies t.stack[i] == s.stack[i] by {}
    assert forall|i: int| 0 <= i < t.stack.len() && (#[trigger] t.stack[i]) is Resume implies t.visited.contains(frame_node(t.stack[i])) && !logged(t.log, frame_node(t.stack[i])) by {
        assert(s.stack[i] is Resume);
    }
    assert forall|i: int, j: int|
        #![trigger t.stack[i], t.stack[j]]
        0 <= i < j < t.stack.len() && t.stack[i] is Resume && t.stack[j] is Resume implies frame_node(t.stack[i]) != frame_node(t.stack[j]) by {
        assert(frame_node(s.stack[i]) != frame_node(s.stack[j]));
    }
    assert forall|n: NodeId| #[trigger] t.visited.contains(n) implies logged(t.log, n) || exists|i: int|
        0 <= i < t.stack.len() && (#[trigger] t.stack[i]) is Resume && frame_node(t.stack[i]) == n by {
        if !logged(s.log, n) {
            let i = choose|i: int|
                0 <= i < s.stack.len() && (#[trigger] s.stack[i]) is Resume && frame_node(
                    s.stack[i],
                ) == n;
            assert(t.stack[i] is Resume);
        }
    }
}

proof fn lemma_once_place(g: GraphModel, rpo: Seq<NodeId>, s: Sched, node: NodeId, slot: usize)
    requires
        sched_once(s),
        s.stack.len() > 0,
        s.stack.last() == Frame::Resume(node, slot),
        phi_kind(g.kind(node)) || slot >= g.ins(node).len(),
    ensures
        sched_once(pulled(g, rpo, s)),
{
    let t = pulled(g, rpo, s);
    let top = s.stack.len() - 1;
    assert(s.stack[top] == Frame::Resume(node, slot));
    assert forall|i: int| 0 <= i < top implies t.stack[i] == s.stack[i] by {}
    assert forall|i: int| top <= i < t.stack.len() implies t.stack[i] is Enter by {}
    assert(t.log =~= s.log.push((node, s.sink)));
    assert forall|n: NodeId| #[trigger] logged(t.log, n) <==> logged(s.log, n) || n == node by {
        if logged(t.log, n) && n != node {
            let i = choose|i: int| 0 <= i < t.log.len() && (#[trigger] t.log[i]).0 == n;
            assert(s.log[i].0 == n);
        }
        if logged(s.log, n) {
            let i = choose|i: int| 0 <= i < s.log.len() && (#[trigger] s.log[i]).0 == n;
            assert(t.log[i].0 == n);
        }
        if n == node {
            assert(t.log[s.log.len() as int].0 == n);
        }
    }
    assert forall|i: int, j: int|
        #![trigger t.log[i], t.log[j]]
        0 <= i < j < t.log.len() implies t.log[i].0 != t.log[j].0 by {
        if j == s.log.len() {
            assert(!logged(s.log, node));
            assert(s.log[i].0 == t.log[i].0);
        } else {
            assert(s.log[i].0 != s.log[j].0);
        }
    }
    assert forall|i: int| 0 <= i < t.log.len() implies t.visited.contains((#[trigger] t.log[i]).0) by {
        if i < s.log.len() {
            assert(s.visited.contains(s.log[i].0));
        }
    }
    assert forall|i: int| 0 <= i < t.stack.len() && (#[trigger] t.stack[i]) is Resume implies t.visited.contains(frame_node(t.stack[i])) && !logged(t.log, frame_node(t.stack[i])) by {
        assert(s.stack[i] is Resume);
        assert(frame_node(s.stack[i]) != frame_node(s.stack[top]));
    }
    assert forall|i: int, j: int|
        #![trigger t.stack[i], t.stack[j]]
        0 <= i < j < t.stack.len() && t.stack[i] is Resume && t.stack[j] is Resume implies frame_node(t.stack[i]) != frame_node(t.stack[j]) by {
        assert(frame_node(s.stack[i]) != frame_node(s.stack[j]));
    }
    assert forall|n: NodeId| #[trigger] t.visited.contains(n) implies logged(t.log, n) || exists|i: int|
        0 <= i < t.stack.len() && (#[trigger] t.stack[i]) is Resume && frame_node(t.stack[i]) == n by {
        if !logged(t.log, n) {
            let i = choose|i: int|
                0 <= i < s.stack.len() && (#[trigger] s.stack[i]) is Resume && frame_node(
                    s.stack[i],
                ) == n;
            assert(t.stack[i] is Resume);
        }
    }
}

/// What will be started still will be after a step.
proof fn lemma_pledged_step(g: GraphModel, rpo: Seq<NodeId>, s: Sched, n: NodeId)
    requires
        pledged(rpo, s, n),
        s.stage <= 2,
        rpo.no_duplicates(),
    ensures
        pledged(rpo, step(g, rpo, s), n),
{
    let t = step(g, rpo, s);
    if coming(s, n) {
        lemma_coming_step(g, rpo, s, n);
    } else if !rpo.contains(n) {
        let w = choose|w: int|
            0 <= w < s.waiting.len() && (#[trigger] s.waiting[w]).1 == n && awaited(
                rpo,
                s,
                s.waiting[w].0,
            );
        let pred = s.waiting[w].0;
        let j = choose|j: int|
            0 <= j < rpo.len() && #[trigger] rpo[j] == pred && (j > s.at || (j == s.at && s.stage
                <= 1));
        if s.stack.len() > 0 {
            match s.stack.last() {
                Frame::Resume(node, _) => {
                    lemma_deferred_keeps(g, rpo, s, node, g.ins(node).len() as int);
                },
                _ => {},
            }
            assert(t.waiting[w] == s.waiting[w]);
            assert(rpo[j] == pred);
            assert(awaited(rpo, t, pred));
        } else if s.next_job < s.jobs.len() || s.next_due < s.due.len() {
            assert(t.waiting[w] == s.waiting[w]);
            assert(rpo[j] == pred);
            assert(awaited(rpo, t, pred));
        } else if j == s.at && s.stage == 1 {
            lemma_waiting_for(s.waiting, pred);
            assert(s.waiting[w].0 == pred);
            assert(t.due.contains(n));
            let x = t.due.index_of(n);
            assert(t.due[x] == n);
            assert(coming(t, n));
        } else {
            assert(t.waiting[w] == s.waiting[w]);
            assert(rpo[j] == pred);
            assert(awaited(rpo, t, pred));
        }
    }
}

/// A step that places a node pledges what the node reads.
proof fn lemma_place_pledges(
    g: GraphModel,
    rpo: Seq<NodeId>,
    s: Sched,
    node: NodeId,
    slot: usize,
    k: int,
)
    requires
        sched_closed(g, rpo, s),
        s.stage <= 2,
        s.next_job <= s.jobs.len(),
        rpo.no_duplicates(),
        s.stack.len() > 0,
        s.stack.last() == Frame::Resume(node, slot),
        phi_kind(g.kind(node)) || slot >= g.ins(node).len(),
        0 <= k < g.ins(node).len(),
    ensures
        pledged(rpo, pulled(g, rpo, s), g.producer(g.ins(node)[k])),
{
    let t = pulled(g, rpo, s);
    let top = s.stack.len() - 1;
    let p = g.producer(g.ins(node)[k]);
    assert(s.stack[top] == Frame::Resume(node, slot));
    if !phi_kind(g.kind(node)) {
        assert(g.ins(frame_node(s.stack[top]))[k] == g.ins(node)[k]);
        assert(pledged(rpo, s, p));
        lemma_pledged_step(g, rpo, s, p);
    } else {
        let len = g.ins(node).len() as int;
        let d = deferred(g, rpo, s, node, len);
        lemma_deferred_covers(g, rpo, s, node, len, k);
        if s.visited.contains(p) || rpo.contains(p) {
        } else if d.here.contains(p) {
            let j = d.here.index_of(p);
            let more = entering(d.here);
            assert(more[d.here.len() - 1 - j] == Frame::Enter(p));
            assert(t.stack[top + (d.here.len() - 1 - j)] == Frame::Enter(p));
            assert(t.stack.contains(Frame::Enter(p)));
        } else if exists|j: int| s.jobs.len() <= j < d.jobs.len() && (#[trigger] d.jobs[j]).0 == p {
            let j = choose|j: int|
                s.jobs.len() <= j < d.jobs.len() && (#[trigger] d.jobs[j]).0 == p;
            assert(t.jobs[j].0 == p);
            assert(coming(t, p));
        } else {
            let w = choose|w: int|
                s.waiting.len() <= w < d.waiting.len() && (#[trigger] d.waiting[w]).1 == p
                    && rpo.contains(d.waiting[w].0) && !s.visited.contains(d.waiting[w].0)
                    && !s.sealed;
            let pred = d.waiting[w].0;
            let j = rpo.index_of(pred);
            assert(rpo[j] == pred);
            assert(t.waiting[w].1 == p);
            assert(awaited(rpo, t, pred));
        }
    }
}

/// No step forgets a node.
pub(crate) proof fn lemma_step_closed(g: GraphModel, entry: NodeId, rpo: Seq<NodeId>, s: Sched)
    requires
        g.valid(),
        rpo.no_duplicates(),
        sched_sound(g, entry, rpo, s),
        sched_once(s),
        sched_closed(g, rpo, s),
    ensures
        sched_closed(g, rpo, step(g, rpo, s)),
{
    let t = step(g, rpo, s);
    assert forall|n: NodeId| #[trigger] coming(s, n) implies coming(t, n) by {
        lemma_coming_step(g, rpo, s, n);
    }
    assert forall|n: NodeId| #[trigger] pledged(rpo, s, n) implies pledged(rpo, t, n) by {
        lemma_pledged_step(g, rpo, s, n);
    }
    lemma_closed_inputs(g, entry, rpo, s);
    assert forall|n: NodeId| #[trigger] s.visited.contains(n) implies t.visited.contains(n) by {
        if s.stack.len() > 0 {
            match s.stack.last() {
                Frame::Enter(node) => {
                    lemma_push_member(s.visited, node, n);
                },
                _ => {},
            }
        }
    }
    let idle = s.stack.len() == 0 && s.next_job >= s.jobs.len() && s.next_due >= s.due.len();
    assert forall|j: int|
        0 <= j < rpo.len() && (t.sealed || j < t.at || (j == t.at && t.stage
            >= 2)) implies t.visited.contains(#[trigger] rpo[j]) by {
        if s.sealed || j < s.at || (j == s.at && s.stage >= 2) {
            assert(s.visited.contains(rpo[j]));
        } else {
            assert(idle);
            assert(coming(s, rpo[j]));
        }
    }
    if !t.sealed && t.at < rpo.len() && t.stage == 1 {
        if s.stage == 0 {
            assert(t.due[0] == rpo[t.at as int]);
            assert(coming(t, rpo[t.at as int]));
        } else {
            assert(coming(s, rpo[t.at as int]));
        }
    }
    lemma_closed_succs(g, entry, rpo, s);
}

proof fn lemma_closed_inputs(g: GraphModel, entry: NodeId, rpo: Seq<NodeId>, s: Sched)
    requires
        sched_sound(g, entry, rpo, s),
        sched_closed(g, rpo, s),
        rpo.no_duplicates(),
        forall|n: NodeId| #[trigger] pledged(rpo, s, n) ==> pledged(rpo, step(g, rpo, s), n),
    ensures
        ({
            let t = step(g, rpo, s);
            &&& forall|i: int, k: int|
                #![trigger t.log[i], g.ins(t.log[i].0)[k]]
                0 <= i < t.log.len() && 0 <= k < g.ins(t.log[i].0).len() ==> pledged(
                    rpo,
                    t,
                    g.producer(g.ins(t.log[i].0)[k]),
                )
            &&& forall|i: int, k: int|
                #![trigger t.stack[i], g.ins(frame_node(t.stack[i]))[k]]
                0 <= i < t.stack.len() && t.stack[i] is Resume && 0 <= k < t.stack[i]->Resume_1
                    && k < g.ins(frame_node(t.stack[i])).len() ==> pledged(
                    rpo,
                    t,
                    g.producer(g.ins(frame_node(t.stack[i]))[k]),
                )
        }),
{
    let t = step(g, rpo, s);
    assert forall|i: int, k: int|
        #![trigger t.log[i], g.ins(t.log[i].0)[k]]
        0 <= i < t.log.len() && 0 <= k < g.ins(t.log[i].0).len() implies pledged(
        rpo,
        t,
        g.producer(g.ins(t.log[i].0)[k]),
    ) by {
        if i < s.log.len() {
            assert(t.log[i] == s.log[i]);
            assert(pledged(rpo, s, g.producer(g.ins(s.log[i].0)[k])));
        } else {
            match s.stack.last() {
                Frame::Resume(node, slot) => {
                    lemma_place_pledges(g, rpo, s, node, slot, k);
                },
                _ => {},
            }
        }
    }
    assert forall|i: int, k: int|
        #![trigger t.stack[i], g.ins(frame_node(t.stack[i]))[k]]
        0 <= i < t.stack.len() && t.stack[i] is Resume && 0 <= k < t.stack[i]->Resume_1 && k
            < g.ins(frame_node(t.stack[i])).len() implies pledged(
        rpo,
        t,
        g.producer(g.ins(frame_node(t.stack[i]))[k]),
    ) by {
        let top = s.stack.len() - 1;
        let n = frame_node(t.stack[i]);
        let p = g.producer(g.ins(n)[k]);
        assert(s.stack.len() > 0);
        if i < top {
            assert(t.stack[i] == s.stack[i]);
            assert(pledged(rpo, s, p));
        } else {
            match s.stack.last() {
                Frame::Resume(node, slot) => {
                    assert(s.stack[top] == Frame::Resume(node, slot));
                    assert(i == top);
                    if k < slot {
                        assert(g.ins(frame_node(s.stack[top]))[k] == g.ins(n)[k]);
                        assert(pledged(rpo, s, p));
                    } else if !rpo.contains(p) {
                        assert(t.stack[top + 1] == Frame::Enter(p));
                        assert(coming(t, p));
                    }
                },
                _ => {},
            }
        }
    }
}

proof fn lemma_closed_succs(g: GraphModel, entry: NodeId, rpo: Seq<NodeId>, s: Sched)
    requires
        sched_sound(g, entry, rpo, s),
        sched_once(s),
        sched_closed(g, rpo, s),
        rpo.no_duplicates(),
        forall|n: NodeId| #[trigger] coming(s, n) ==> coming(step(g, rpo, s), n),
    ensures
        ({
            let t = step(g, rpo, s);
            &&& !t.sealed && t.stage >= 1 ==> t.at < rpo.len()
            &&& t.sealed ==> t.at <= order_of(t.log, rpo).len() && t.stage <= 1
            &&& t.sealed && t.stage == 1 ==> t.at < order_of(t.log, rpo).len()
            &&& t.sealed ==> forall|i: int, k: int|
                #![trigger order_of(t.log, rpo)[i], cfg_succs(g, order_of(t.log, rpo)[i])[k]]
                0 <= i < order_of(t.log, rpo).len() && (i < t.at || (i == t.at && t.stage >= 1))
                    && 0 <= k < cfg_succs(g, order_of(t.log, rpo)[i]).len() ==> coming(
                    t,
                    cfg_succs(g, order_of(t.log, rpo)[i])[k],
                )
        }),
{
    let t = step(g, rpo, s);
    if s.sealed {
        let before = order_of(s.log, rpo);
        let after = order_of(t.log, rpo);
        if t.log != s.log {
            match s.stack.last() {
                Frame::Resume(node, slot) => {
                    assert(s.sink is None);
                    lemma_order_tail(s.log, rpo, node);
                },
                _ => {},
            }
        }
        assert(before.len() <= after.len());
        assert forall|i: int| 0 <= i < before.len() implies #[trigger] after[i] == before[i] by {}
        assert forall|i: int, k: int|
            #![trigger after[i], cfg_succs(g, after[i])[k]]
            0 <= i < after.len() && (i < t.at || (i == t.at && t.stage >= 1)) && 0 <= k
                < cfg_succs(g, after[i]).len() implies coming(t, cfg_succs(g, after[i])[k]) by {
            assert(i < before.len());
            assert(after[i] == before[i]);
            if i < s.at || (i == s.at && s.stage >= 1) {
                assert(coming(s, cfg_succs(g, before[i])[k]));
            } else {
                assert(t.due[k] == cfg_succs(g, after[i])[k]);
            }
        }
    }
}

// -- the scheduler ends ------------------------------------------------------------
/// What is left to do for a frame.
pub open spec fn frame_weight(g: GraphModel, frame: Frame) -> int {
    match frame {
        Frame::Enter(_) => 1,
        Frame::Resume(n, slot) => if phi_kind(g.kind(n)) {
            2 * (g.ins(n).len() as int) + 1
        } else if slot < g.ins(n).len() {
            2 * (g.ins(n).len() - slot) + 1
        } else {
            1
        },
    }
}

pub open spec fn stack_weight(g: GraphModel, stack: Seq<Frame>) -> int
    decreases stack.len(),
{
    if stack.len() == 0 {
        0
    } else {
        stack_weight(g, stack.drop_last()) + frame_weight(g, stack.last())
    }
}

proof fn lemma_stack_weight_nonnegative(g: GraphModel, stack: Seq<Frame>)
    ensures
        stack_weight(g, stack) >= 0,
    decreases stack.len(),
{
    if stack.len() > 0 {
        lemma_stack_weight_nonnegative(g, stack.drop_last());
    }
}

proof fn lemma_stack_weight_push(g: GraphModel, stack: Seq<Frame>, frame: Frame)
    ensures
        stack_weight(g, stack.push(frame)) == stack_weight(g, stack) + frame_weight(g, frame),
{
    assert(stack.push(frame).drop_last() =~= stack);
}

proof fn lemma_stack_weight_entering(g: GraphModel, stack: Seq<Frame>, nodes: Seq<NodeId>)
    ensures
        stack_weight(g, stack + entering(nodes)) == stack_weight(g, stack) + nodes.len(),
    decreases nodes.len(),
{
    if nodes.len() == 0 {
        assert(stack + entering(nodes) =~= stack);
    } else {
        let rest = nodes.skip(1);
        lemma_stack_weight_entering(g, stack, rest);
        assert((stack + entering(nodes)).drop_last() =~= stack + entering(rest));
        assert((stack + entering(nodes)).last() == Frame::Enter(nodes[0]));
    }
}

/// How many nodes were not started yet.
pub open spec fn unstarted(g: GraphModel, s: Sched) -> int {
    g.nodes.len() - s.visited.len()
}

/// How far the scheduler is from its end.
pub open spec fn outer_left(g: GraphModel, rpo: Seq<NodeId>, s: Sched) -> int {
    if s.sealed {
        2 * (g.nodes.len() - s.at) - s.stage
    } else {
        3 * (rpo.len() - s.at) - s.stage + 2 * g.nodes.len() + 1
    }
}

/// What is left of the work at hand.
pub open spec fn inner_left(g: GraphModel, s: Sched) -> int {
    stack_weight(g, s.stack) + 2 * (s.jobs.len() - s.next_job) + 3 * (s.due.len() - s.next_due)
}

/// A step that does something leaves less to do.
pub(crate) proof fn lemma_step_decreases(g: GraphModel, entry: NodeId, rpo: Seq<NodeId>, s: Sched)
    requires
        g.valid(),
        rpo.no_duplicates(),
        sched_sound(g, entry, rpo, s),
        sched_once(s),
        sched_closed(g, rpo, s),
        sched_sound(g, entry, rpo, step(g, rpo, s)),
        sched_once(step(g, rpo, s)),
        !done(rpo, s),
    ensures
        ({
            let t = step(g, rpo, s);
            &&& unstarted(g, t) >= 0
            &&& outer_left(g, rpo, t) >= 0
            &&& inner_left(g, t) >= 0
            &&& {
                ||| unstarted(g, t) < unstarted(g, s)
                ||| unstarted(g, t) == unstarted(g, s) && outer_left(g, rpo, t) < outer_left(
                    g,
                    rpo,
                    s,
                )
                ||| unstarted(g, t) == unstarted(g, s) && outer_left(g, rpo, t) == outer_left(
                    g,
                    rpo,
                    s,
                ) && inner_left(g, t) < inner_left(g, s)
            }
        }),
{
    let t = step(g, rpo, s);
    lemma_visited_bounded(g, entry, rpo, t);
    lemma_order(s.log, rpo);
    lemma_visited_bounded(g, entry, rpo, s);
    lemma_step_closed(g, entry, rpo, s);
    lemma_order(t.log, rpo);
    lemma_log_bounded(g, entry, rpo, s);
    lemma_log_bounded(g, entry, rpo, t);
    lemma_stack_weight_nonnegative(g, t.stack);
    if s.stack.len() > 0 {
        let rest = s.stack.drop_last();
        match s.stack.last() {
            Frame::Enter(node) => {},
            Frame::Resume(node, slot) => {
                if !phi_kind(g.kind(node)) && slot < g.ins(node).len() {
                    let producer = g.producer(g.ins(node)[slot as int]);
                    let next = Frame::Resume(node, (slot + 1) as usize);
                    lemma_stack_weight_push(g, rest, next);
                    lemma_stack_weight_push(g, rest.push(next), Frame::Enter(producer));
                    assert(known(g, entry, frame_node(s.stack[s.stack.len() - 1])));
                    lemma_resume_weight(g, node, slot);
                } else if phi_kind(g.kind(node)) {
                    let k = g.ins(node).len() as int;
                    lemma_deferred_weight(g, rpo, s, node, k);
                    lemma_stack_weight_entering(g, rest, deferred(g, rpo, s, node, k).here);
                }
            },
        }
    } else if s.next_job < s.jobs.len() {
        let (node, sink) = s.jobs[s.next_job as int];
        assert(seq![Frame::Enter(node)].drop_last() =~= Seq::empty());
        assert(stack_weight(g, seq![Frame::Enter(node)].drop_last()) == 0);
        assert(stack_weight(g, t.stack) == 1);
    }
}

proof fn lemma_resume_weight(g: GraphModel, node: NodeId, slot: usize)
    requires
        !phi_kind(g.kind(node)),
        slot < g.ins(node).len(),
        g.valid(),
        g.has_node(node),
    ensures
        frame_weight(g, Frame::Resume(node, (slot + 1) as usize)) + 1 < frame_weight(
            g,
            Frame::Resume(node, slot),
        ),
{
    lemma_inputs_bounded(g, node);
}

/// A node has no more inputs than there are uses.
pub(crate) proof fn lemma_inputs_bounded(g: GraphModel, node: NodeId)
    requires
        g.valid(),
        g.has_node(node),
    ensures
        g.ins(node).len() <= g.uses.len() <= u32::MAX,
{
    let places = Seq::new(g.slots(node).len(), |i: int| g.slots(node)[i].0 as int);
    assert forall|i: int| 0 <= i < places.len() implies g.slot_ok(node.0 as int, i) by {
        assert(g.nodes[node.0 as int].inputs[i] == g.slots(node)[i]);
    }
    assert forall|i: int, j: int|
        0 <= i < places.len() && 0 <= j < places.len() && i != j implies places[i] != places[j] by {
        assert(g.slot_ok(node.0 as int, i) && g.slot_ok(node.0 as int, j));
    }
    crate::entity_set::lemma_distinct_ints(places, g.uses.len());
}

proof fn lemma_visited_bounded(g: GraphModel, entry: NodeId, rpo: Seq<NodeId>, s: Sched)
    requires
        sched_sound(g, entry, rpo, s),
        sched_once(s),
    ensures
        s.visited.len() <= g.nodes.len(),
{
    assert forall|i: int| 0 <= i < s.visited.len() implies g.has_node(#[trigger] s.visited[i]) by {
        assert(known(g, entry, s.visited[i]));
    }
    crate::entity_set::lemma_distinct_bounded(s.visited, g.nodes.len());
}

pub(crate) proof fn lemma_log_bounded(g: GraphModel, entry: NodeId, rpo: Seq<NodeId>, s: Sched)
    requires
        sched_sound(g, entry, rpo, s),
        sched_once(s),
    ensures
        s.log.len() <= g.nodes.len(),
{
    let nodes = log_nodes(s.log);
    assert forall|i: int| 0 <= i < nodes.len() implies g.has_node(#[trigger] nodes[i]) by {
        assert(s.visited.contains(s.log[i].0));
        let x = s.visited.index_of(nodes[i]);
        assert(known(g, entry, s.visited[x]));
    }
    assert forall|i: int, j: int| 0 <= i < nodes.len() && 0 <= j < nodes.len() && i != j implies nodes[i]
        != nodes[j] by {
        if i < j {
            assert(s.log[i].0 != s.log[j].0);
        } else {
            assert(s.log[j].0 != s.log[i].0);
        }
    }
    crate::entity_set::lemma_distinct_bounded(nodes, g.nodes.len());
}

/// When the scheduler is done, its order holds what can be reached.
pub(crate) proof fn lemma_done_reachable(g: GraphModel, entry: NodeId, rpo: Seq<NodeId>, s: Sched)
    requires
        g.valid(),
        rpo.no_duplicates(),
        rpo.contains(entry),
        sched_sound(g, entry, rpo, s),
        sched_once(s),
        sched_closed(g, rpo, s),
        done(rpo, s),
    ensures
        order_of(s.log, rpo).no_duplicates(),
        forall|n: NodeId|
            #[trigger] order_of(s.log, rpo).contains(n) <==> g.has_node(n) && reachable(
                g,
                entry,
                n,
            ),
{
    let order = order_of(s.log, rpo);
    lemma_order(s.log, rpo);
    assert forall|n: NodeId| #[trigger] coming(s, n) implies s.visited.contains(n) by {}
    assert forall|n: NodeId| #[trigger] s.visited.contains(n) <==> logged(s.log, n) by {
        if logged(s.log, n) {
            let i = choose|i: int| 0 <= i < s.log.len() && (#[trigger] s.log[i]).0 == n;
            assert(s.visited.contains(s.log[i].0));
        }
    }
    let x = rpo.index_of(entry);
    assert(s.visited.contains(rpo[x]));
    let all = Set::new(|n: NodeId| s.visited.contains(n));
    assert forall|a: NodeId, b: NodeId| all.contains(a) && #[trigger] steps_to(g, a, b) implies all.contains(b) by {
        assert(logged(s.log, a));
        if feeds(g, a, b) {
            let i = choose|i: int| 0 <= i < s.log.len() && (#[trigger] s.log[i]).0 == a;
            let k = choose|k: int| 0 <= k < g.ins(a).len() && g.producer(#[trigger] g.ins(a)[k]) == b;
            assert(g.ins(s.log[i].0)[k] == g.ins(a)[k]);
            assert(pledged(rpo, s, b));
            if rpo.contains(b) {
                let y = rpo.index_of(b);
                assert(s.visited.contains(rpo[y]));
            }
        } else {
            lemma_cfg_succs(g, a, b);
            assert(order.contains(a));
            let i = order.index_of(a);
            let k = cfg_succs(g, a).index_of(b);
            assert(coming(s, cfg_succs(g, order[i])[k]));
        }
    }
    assert forall|n: NodeId| #[trigger] order.contains(n) <==> g.has_node(n) && reachable(g, entry, n) by {
        if order.contains(n) {
            assert(s.visited.contains(n));
            let y = s.visited.index_of(n);
            assert(known(g, entry, s.visited[y]));
        }
        if reachable(g, entry, n) {
            lemma_closed_holds_reachable(g, entry, n, all);
            assert(logged(s.log, n));
        }
    }
}

} // verus!
