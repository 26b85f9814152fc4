//! Where nodes print: control nodes in reverse postorder, and what a node reads
//! before the node.

use super::alike::{lemma_sched_ends_from, lemma_search_ends};
use super::order::{
    cfg_rpo, deferred, entering, flat, frame_node, known, lemma_deferred_keeps,
    lemma_scheduled_unique, lemma_waiting_for, logged, order_of, phi_kind, placements, pulled,
    sched_after, sched_closed, sched_once, sched_sound, scheduled, sink_ok, step, sunk,
    waiting_for, Frame, Sched, Sink,
};
use super::orderer::{attached, attached_upto, moves, print_order};
use super::settle::{lemma_inputs_bounded, lemma_step_closed, lemma_step_once, lemma_step_sound};
use crate::entity_set::lemma_push_member;
use crate::graph::model::GraphModel;
use crate::graph::walk::feeds;
use crate::node::NodeId;
use vstd::prelude::*;

verus! {

/// A chain in which each node reads from the next.
pub open spec fn is_chain(g: GraphModel, p: Seq<NodeId>) -> bool {
    &&& p.len() > 0
    &&& forall|k: int|
        #![trigger p[k], p[k + 1]]
        0 <= k < p.len() - 1 ==> feeds(g, p[k], p[k + 1])
}

/// `a` reads from `b`, in any number of steps.
pub open spec fn depends(g: GraphModel, a: NodeId, b: NodeId) -> bool {
    exists|p: Seq<NodeId>| #[trigger] is_chain(g, p) && p[0] == a && p.last() == b
}

proof fn lemma_depends_self(g: GraphModel, a: NodeId)
    ensures
        depends(g, a, a),
{
    let p = seq![a];
    assert(is_chain(g, p) && p[0] == a && p.last() == a);
}

proof fn lemma_depends_on(g: GraphModel, a: NodeId, b: NodeId, i: int)
    requires
        depends(g, a, b),
        0 <= i < g.ins(b).len(),
    ensures
        depends(g, a, g.producer(g.ins(b)[i])),
{
    let c = g.producer(g.ins(b)[i]);
    let p = choose|p: Seq<NodeId>| #[trigger] is_chain(g, p) && p[0] == a && p.last() == b;
    let q = p.push(c);
    assert(feeds(g, b, c));
    assert forall|k: int|
        #![trigger q[k], q[k + 1]]
        0 <= k < q.len() - 1 implies feeds(g, q[k], q[k + 1]) by {
        if k < p.len() - 1 {
            assert(q[k] == p[k] && q[k + 1] == p[k + 1]);
        }
    }
    assert(is_chain(g, q) && q[0] == a && q.last() == c);
}

// -- what the scheduler keeps -----------------------------------------------------
/// A control node goes to its own block.
spec fn own_block(rpo: Seq<NodeId>, n: NodeId, sink: Sink) -> bool {
    rpo.contains(n) ==> sink == Some(n)
}

/// Control nodes are placed in their own blocks.
spec fn at_home(rpo: Seq<NodeId>, s: Sched) -> bool {
    &&& forall|i: int| 0 <= i < s.log.len() ==> own_block(rpo, (#[trigger] s.log[i]).0, s.log[i].1)
    &&& forall|i: int|
        0 <= i < s.stack.len() && ((#[trigger] s.stack[i]) is Resume || !s.visited.contains(
            frame_node(s.stack[i]),
        )) ==> own_block(rpo, frame_node(s.stack[i]), s.sink)
    &&& forall|j: int|
        s.next_job <= j < s.jobs.len() && !s.visited.contains((#[trigger] s.jobs[j]).0)
            ==> own_block(rpo, s.jobs[j].0, s.jobs[j].1)
    &&& forall|j: int|
        s.next_due <= j < s.due.len() && !s.visited.contains(#[trigger] s.due[j]) ==> own_block(
            rpo,
            s.due[j],
            s.due_sink,
        )
    &&& forall|j: int| 0 <= j < s.waiting.len() ==> !rpo.contains((#[trigger] s.waiting[j]).1)
}

/// An input that was looked at: a control node, or started, or next to start.
spec fn looked_at(rpo: Seq<NodeId>, s: Sched, i: int, q: NodeId) -> bool {
    rpo.contains(q) || s.visited.contains(q) || exists|j: int|
        i < j < s.stack.len() && #[trigger] s.stack[j] == Frame::Enter(q)
}

/// An input stands before its reader: a control node, or placed before, or one
/// that depends on the reader.
pub open spec fn stands_before(
    g: GraphModel,
    rpo: Seq<NodeId>,
    log: Seq<(NodeId, Sink)>,
    l: int,
    q: NodeId,
) -> bool {
    ||| rpo.contains(q)
    ||| exists|k: int| 0 <= k < l && (#[trigger] log[k]).0 == q
    ||| depends(g, q, log[l].0)
}

/// What is being worked on depends on what is above it, and inputs are placed
/// before their readers.
spec fn in_turn(g: GraphModel, rpo: Seq<NodeId>, s: Sched) -> bool {
    &&& forall|i: int, j: int|
        #![trigger s.stack[i], s.stack[j]]
        0 <= i <= j < s.stack.len() && s.stack[i] is Resume ==> depends(
            g,
            frame_node(s.stack[i]),
            frame_node(s.stack[j]),
        )
    &&& forall|i: int, k: int|
        #![trigger s.stack[i], g.ins(frame_node(s.stack[i]))[k]]
        0 <= i < s.stack.len() && s.stack[i] is Resume && !phi_kind(
            g.kind(frame_node(s.stack[i])),
        ) && 0 <= k < s.stack[i]->Resume_1 && k < g.ins(frame_node(s.stack[i])).len()
            ==> looked_at(rpo, s, i, g.producer(g.ins(frame_node(s.stack[i]))[k]))
    &&& forall|l: int, k: int|
        #![trigger s.log[l], g.ins(s.log[l].0)[k]]
        0 <= l < s.log.len() && !phi_kind(g.kind(s.log[l].0)) && 0 <= k < g.ins(
            s.log[l].0,
        ).len() ==> stands_before(g, rpo, s.log, l, g.producer(g.ins(s.log[l].0)[k]))
}

/// What a phi hands out are no control nodes, and inputs of the phi.
proof fn lemma_deferred_outside(g: GraphModel, rpo: Seq<NodeId>, s: Sched, phi: NodeId, k: int)
    requires
        0 <= k <= g.ins(phi).len(),
    ensures
        ({
            let d = deferred(g, rpo, s, phi, k);
            &&& forall|j: int|
                s.jobs.len() <= j < d.jobs.len() ==> !rpo.contains((#[trigger] d.jobs[j]).0)
            &&& forall|j: int|
                s.waiting.len() <= j < d.waiting.len() ==> !rpo.contains(
                    (#[trigger] d.waiting[j]).1,
                )
            &&& forall|j: int|
                0 <= j < d.here.len() ==> !rpo.contains(#[trigger] d.here[j]) && exists|i: int|
                    0 <= i < g.ins(phi).len() && g.producer(#[trigger] g.ins(phi)[i]) == d.here[j]
        }),
    decreases k,
{
    if k > 0 {
        lemma_deferred_outside(g, rpo, s, phi, k - 1);
        lemma_deferred_keeps(g, rpo, s, phi, k - 1);
        let c = deferred(g, rpo, s, phi, k - 1);
        let d = deferred(g, rpo, s, phi, k);
        assert(g.producer(g.ins(phi)[k - 1]) == g.producer(g.ins(phi)[k - 1]));
        assert forall|j: int| 0 <= j < d.here.len() implies !rpo.contains(#[trigger] d.here[j])
            && exists|i: int|
            0 <= i < g.ins(phi).len() && g.producer(#[trigger] g.ins(phi)[i]) == d.here[j] by {
            if j < c.here.len() {
                assert(d.here[j] == c.here[j]);
            } else {
                assert(g.producer(g.ins(phi)[k - 1]) == d.here[j]);
            }
        }
        assert forall|j: int| s.jobs.len() <= j < d.jobs.len() implies !rpo.contains(
            (#[trigger] d.jobs[j]).0,
        ) by {
            if j < c.jobs.len() {
                assert(d.jobs[j] == c.jobs[j]);
            }
        }
        assert forall|j: int| s.waiting.len() <= j < d.waiting.len() implies !rpo.contains(
            (#[trigger] d.waiting[j]).1,
        ) by {
            if j < c.waiting.len() {
                assert(d.waiting[j] == c.waiting[j]);
            }
        }
    }
}

proof fn lemma_home_step(g: GraphModel, rpo: Seq<NodeId>, s: Sched)
    requires
        at_home(rpo, s),
        sched_closed(g, rpo, s),
    ensures
        at_home(rpo, step(g, rpo, s)),
{
    let t = step(g, rpo, s);
    if s.stack.len() > 0 {
        let rest = s.stack.drop_last();
        let top = s.stack.len() - 1;
        match s.stack.last() {
            Frame::Enter(node) => {
                assert(s.stack[top] == Frame::Enter(node));
                assert forall|m: NodeId| #[trigger] s.visited.contains(m) implies t.visited.contains(
                    m,
                ) by {
                    lemma_push_member(s.visited, node, m);
                }
                assert forall|i: int|
                    0 <= i < t.stack.len() && ((#[trigger] t.stack[i]) is Resume
                        || !t.visited.contains(frame_node(t.stack[i]))) implies own_block(
                    rpo,
                    frame_node(t.stack[i]),
                    t.sink,
                ) by {
                    if i < top {
                        assert(t.stack[i] == s.stack[i]);
                    }
                }
            },
            Frame::Resume(node, slot) => {
                assert(s.stack[top] == Frame::Resume(node, slot));
                let k = g.ins(node).len() as int;
                let d = deferred(g, rpo, s, node, k);
                lemma_deferred_outside(g, rpo, s, node, k);
                lemma_deferred_keeps(g, rpo, s, node, k);
                assert forall|i: int|
                    0 <= i < t.stack.len() && ((#[trigger] t.stack[i]) is Resume
                        || !t.visited.contains(frame_node(t.stack[i]))) implies own_block(
                    rpo,
                    frame_node(t.stack[i]),
                    t.sink,
                ) by {
                    if i < top {
                        assert(t.stack[i] == s.stack[i]);
                    } else if phi_kind(g.kind(node)) {
                        let x = d.here.len() - 1 - (i - top);
                        assert(t.stack[i] == entering(d.here)[i - top]);
                        assert(t.stack[i] == Frame::Enter(d.here[x]));
                    }
                }
                assert forall|j: int|
                    t.next_job <= j < t.jobs.len() && !t.visited.contains(
                        (#[trigger] t.jobs[j]).0,
                    ) implies own_block(rpo, t.jobs[j].0, t.jobs[j].1) by {
                    if j < s.jobs.len() {
                        assert(t.jobs[j] == s.jobs[j]);
                    }
                }
                assert forall|j: int| 0 <= j < t.waiting.len() implies !rpo.contains(
                    (#[trigger] t.waiting[j]).1,
                ) by {
                    if j < s.waiting.len() {
                        assert(t.waiting[j] == s.waiting[j]);
                    }
                }
                assert forall|i: int| 0 <= i < t.log.len() implies own_block(
                    rpo,
                    (#[trigger] t.log[i]).0,
                    t.log[i].1,
                ) by {
                    if i < s.log.len() {
                        assert(t.log[i] == s.log[i]);
                    }
                }
            },
        }
    } else if s.next_job < s.jobs.len() {
        let (node, sink) = s.jobs[s.next_job as int];
        assert(t.stack[0] == Frame::Enter(node));
    } else if s.next_due < s.due.len() {
        assert(t.jobs[0] == (s.due[s.next_due as int], s.due_sink));
    } else {
        if !s.sealed && s.at < rpo.len() && s.stage == 1 {
            let node = rpo[s.at as int];
            lemma_waiting_for(s.waiting, node);
            assert forall|j: int| 0 <= j < t.due.len() implies !rpo.contains(
                #[trigger] t.due[j],
            ) by {
                assert(t.due[j] == waiting_for(s.waiting, node)[j]);
                let w = choose|w: int|
                    0 <= w < s.waiting.len() && s.waiting[w] == (
                        node,
                        waiting_for(s.waiting, node)[j],
                    );
                assert(!rpo.contains(s.waiting[w].1));
            }
        }
        if s.sealed {
            assert forall|n: NodeId| #[trigger] rpo.contains(n) implies s.visited.contains(n) by {
                let j = rpo.index_of(n);
                assert(s.visited.contains(rpo[j]));
            }
        }
    }
}

proof fn lemma_turn_step(g: GraphModel, entry: NodeId, rpo: Seq<NodeId>, s: Sched)
    requires
        g.valid(),
        sched_sound(g, entry, rpo, s),
        sched_once(s),
        in_turn(g, rpo, s),
    ensures
        in_turn(g, rpo, step(g, rpo, s)),
{
    let t = step(g, rpo, s);
    if s.stack.len() > 0 {
        let rest = s.stack.drop_last();
        let top = s.stack.len() - 1;
        assert(known(g, entry, frame_node(s.stack[top])));
        match s.stack.last() {
            Frame::Enter(node) => {
                lemma_turn_enter(g, rpo, s, node);
            },
            Frame::Resume(node, slot) => {
                lemma_inputs_bounded(g, node);
                if !phi_kind(g.kind(node)) && slot < g.ins(node).len() {
                    lemma_turn_resume(g, rpo, s, node, slot);
                } else {
                    lemma_turn_place(g, rpo, s, node, slot);
                }
            },
        }
    } else if s.next_job < s.jobs.len() {
        assert(t.stack[0] is Enter);
    }
}

proof fn lemma_turn_enter(g: GraphModel, rpo: Seq<NodeId>, s: Sched, node: NodeId)
    requires
        in_turn(g, rpo, s),
        s.stack.len() > 0,
        s.stack.last() == Frame::Enter(node),
    ensures
        in_turn(g, rpo, pulled(g, rpo, s)),
{
    let t = pulled(g, rpo, s);
    let top = s.stack.len() - 1;
    assert(s.stack[top] == Frame::Enter(node));
    lemma_depends_self(g, node);
    assert forall|m: NodeId| #[trigger] t.visited.contains(m) <==> s.visited.contains(m) || m
        == node by {
        lemma_push_member(s.visited, node, m);
    }
    assert forall|i: int, j: int|
        #![trigger t.stack[i], t.stack[j]]
        0 <= i <= j < t.stack.len() && t.stack[i] is Resume implies depends(
        g,
        frame_node(t.stack[i]),
        frame_node(t.stack[j]),
    ) by {
        if i < top {
            assert(t.stack[i] == s.stack[i]);
            assert(frame_node(t.stack[j]) == frame_node(s.stack[j]));
        }
    }
    assert forall|i: int, k: int|
        #![trigger t.stack[i], g.ins(frame_node(t.stack[i]))[k]]
        0 <= i < t.stack.len() && t.stack[i] is Resume && !phi_kind(
            g.kind(frame_node(t.stack[i])),
        ) && 0 <= k < t.stack[i]->Resume_1 && k < g.ins(
            frame_node(t.stack[i]),
        ).len() implies looked_at(rpo, t, i, g.producer(g.ins(frame_node(t.stack[i]))[k])) by {
        if i < top {
            assert(t.stack[i] == s.stack[i]);
            let q = g.producer(g.ins(frame_node(s.stack[i]))[k]);
            assert(looked_at(rpo, s, i, q));
            if !rpo.contains(q) && !s.visited.contains(q) && q != node {
                let j = choose|j: int|
                    i < j < s.stack.len() && #[trigger] s.stack[j] == Frame::Enter(q);
                assert(t.stack[j] == Frame::Enter(q));
            }
        }
    }
}

proof fn lemma_turn_resume(
    g: GraphModel,
    rpo: Seq<NodeId>,
    s: Sched,
    node: NodeId,
    slot: usize,
)
    requires
        in_turn(g, rpo, s),
        s.stack.len() > 0,
        s.stack.last() == Frame::Resume(node, slot),
        !phi_kind(g.kind(node)),
        slot < g.ins(node).len() <= u32::MAX,
    ensures
        in_turn(g, rpo, pulled(g, rpo, s)),
{
    let t = pulled(g, rpo, s);
    let top = s.stack.len() - 1;
    let producer = g.producer(g.ins(node)[slot as int]);
    assert(s.stack[top] == Frame::Resume(node, slot));
    assert(t.stack[top] == Frame::Resume(node, (slot + 1) as usize));
    assert forall|i: int, j: int|
        #![trigger t.stack[i], t.stack[j]]
        0 <= i <= j < t.stack.len() && t.stack[i] is Resume implies depends(
        g,
        frame_node(t.stack[i]),
        frame_node(t.stack[j]),
    ) by {
        assert(frame_node(t.stack[i]) == frame_node(s.stack[i]));
        if j <= top {
            assert(frame_node(t.stack[j]) == frame_node(s.stack[j]));
            assert(s.stack[i] is Resume);
        } else {
            assert(t.stack[j] == Frame::Enter(producer));
            assert(depends(g, frame_node(s.stack[i]), frame_node(s.stack[top])));
            lemma_depends_on(g, frame_node(s.stack[i]), node, slot as int);
        }
    }
    assert forall|i: int, k: int|
        #![trigger t.stack[i], g.ins(frame_node(t.stack[i]))[k]]
        0 <= i < t.stack.len() && t.stack[i] is Resume && !phi_kind(
            g.kind(frame_node(t.stack[i])),
        ) && 0 <= k < t.stack[i]->Resume_1 && k < g.ins(
            frame_node(t.stack[i]),
        ).len() implies looked_at(rpo, t, i, g.producer(g.ins(frame_node(t.stack[i]))[k])) by {
        let q = g.producer(g.ins(frame_node(t.stack[i]))[k]);
        if i == top && k == slot {
            if !rpo.contains(q) {
                assert(t.stack[top + 1] == Frame::Enter(q));
            }
        } else {
            assert(i <= top);
            assert(frame_node(t.stack[i]) == frame_node(s.stack[i]));
            assert(looked_at(rpo, s, i, q));
            if !rpo.contains(q) && !s.visited.contains(q) {
                let j = choose|j: int|
                    i < j < s.stack.len() && #[trigger] s.stack[j] == Frame::Enter(q);
                assert(t.stack[j] == s.stack[j]);
            }
        }
    }
}

proof fn lemma_turn_place(
    g: GraphModel,
    rpo: Seq<NodeId>,
    s: Sched,
    node: NodeId,
    slot: usize,
)
    requires
        in_turn(g, rpo, s),
        sched_once(s),
        s.stack.len() > 0,
        s.stack.last() == Frame::Resume(node, slot),
        phi_kind(g.kind(node)) || slot >= g.ins(node).len(),
    ensures
        in_turn(g, rpo, pulled(g, rpo, s)),
{
    let t = pulled(g, rpo, s);
    let top = s.stack.len() - 1;
    assert(s.stack[top] == Frame::Resume(node, slot));
    let d = deferred(g, rpo, s, node, g.ins(node).len() as int);
    lemma_deferred_outside(g, rpo, s, node, g.ins(node).len() as int);
    assert forall|i: int, j: int|
        #![trigger t.stack[i], t.stack[j]]
        0 <= i <= j < t.stack.len() && t.stack[i] is Resume implies depends(
        g,
        frame_node(t.stack[i]),
        frame_node(t.stack[j]),
    ) by {
        if i >= top {
            assert(t.stack[i] == entering(d.here)[i - top]);
        }
        assert(t.stack[i] == s.stack[i]);
        if j < top {
            assert(t.stack[j] == s.stack[j]);
        } else {
            assert(t.stack[j] == entering(d.here)[j - top]);
            let x = d.here.len() - 1 - (j - top);
            assert(t.stack[j] == Frame::Enter(d.here[x]));
            let y = choose|y: int|
                0 <= y < g.ins(node).len() && g.producer(#[trigger] g.ins(node)[y]) == d.here[x];
            assert(depends(g, frame_node(s.stack[i]), frame_node(s.stack[top])));
            lemma_depends_on(g, frame_node(s.stack[i]), node, y);
        }
    }
    assert forall|i: int, k: int|
        #![trigger t.stack[i], g.ins(frame_node(t.stack[i]))[k]]
        0 <= i < t.stack.len() && t.stack[i] is Resume && !phi_kind(
            g.kind(frame_node(t.stack[i])),
        ) && 0 <= k < t.stack[i]->Resume_1 && k < g.ins(
            frame_node(t.stack[i]),
        ).len() implies looked_at(rpo, t, i, g.producer(g.ins(frame_node(t.stack[i]))[k])) by {
        if i >= top {
            assert(t.stack[i] == entering(d.here)[i - top]);
        }
        assert(t.stack[i] == s.stack[i]);
        let q = g.producer(g.ins(frame_node(s.stack[i]))[k]);
        assert(looked_at(rpo, s, i, q));
        if !rpo.contains(q) && !s.visited.contains(q) {
            let j = choose|j: int|
                i < j < s.stack.len() && #[trigger] s.stack[j] == Frame::Enter(q);
            assert(j < top);
            assert(t.stack[j] == s.stack[j]);
        }
    }
    assert forall|l: int, k: int|
        #![trigger t.log[l], g.ins(t.log[l].0)[k]]
        0 <= l < t.log.len() && !phi_kind(g.kind(t.log[l].0)) && 0 <= k < g.ins(
            t.log[l].0,
        ).len() implies stands_before(g, rpo, t.log, l, g.producer(g.ins(t.log[l].0)[k])) by {
        let q = g.producer(g.ins(t.log[l].0)[k]);
        if l < s.log.len() {
            assert(t.log[l] == s.log[l]);
            assert(stands_before(g, rpo, s.log, l, q));
            if exists|x: int| 0 <= x < l && (#[trigger] s.log[x]).0 == q {
                let x = choose|x: int| 0 <= x < l && (#[trigger] s.log[x]).0 == q;
                assert(t.log[x] == s.log[x]);
            }
        } else {
            assert(t.log[l].0 == node);
            assert(g.ins(frame_node(s.stack[top]))[k] == g.ins(node)[k]);
            assert(looked_at(rpo, s, top, q));
            if !rpo.contains(q) {
                assert(s.visited.contains(q));
                if logged(s.log, q) {
                    let x = choose|x: int| 0 <= x < s.log.len() && (#[trigger] s.log[x]).0 == q;
                    assert(t.log[x] == s.log[x]);
                } else {
                    let i = choose|i: int|
                        0 <= i < s.stack.len() && (#[trigger] s.stack[i]) is Resume && frame_node(
                            s.stack[i],
                        ) == q;
                    assert(depends(g, frame_node(s.stack[i]), frame_node(s.stack[top])));
                }
            }
        }
    }
}

proof fn lemma_kept_after(g: GraphModel, entry: NodeId, n: nat)
    requires
        g.valid(),
        g.has_node(entry),
    ensures
        ({
            let rpo = cfg_rpo(g, entry);
            let s = sched_after(g, rpo, n);
            &&& sched_sound(g, entry, rpo, s)
            &&& sched_once(s)
            &&& sched_closed(g, rpo, s)
            &&& at_home(rpo, s)
            &&& in_turn(g, rpo, s)
        }),
    decreases n,
{
    let rpo = cfg_rpo(g, entry);
    lemma_search_ends(g, entry);
    if n > 0 {
        let m = (n - 1) as nat;
        lemma_kept_after(g, entry, m);
        let s = sched_after(g, rpo, m);
        lemma_step_sound(g, entry, rpo, s);
        lemma_step_once(g, rpo, s);
        lemma_step_closed(g, entry, rpo, s);
        lemma_home_step(g, rpo, s);
        lemma_turn_step(g, entry, rpo, s);
    }
}

/// What is known of the placements in the end.
proof fn lemma_placements(g: GraphModel, entry: NodeId)
    requires
        g.valid(),
        g.has_node(entry),
    ensures
        ({
            let rpo = cfg_rpo(g, entry);
            let log = placements(g, entry);
            &&& rpo.no_duplicates()
            &&& forall|i: int| 0 <= i < log.len() ==> sink_ok(rpo, false, (#[trigger] log[i]).1)
            &&& forall|i: int, j: int|
                #![trigger log[i], log[j]]
                0 <= i < j < log.len() ==> log[i].0 != log[j].0
            &&& forall|i: int| 0 <= i < log.len() ==> own_block(rpo, (#[trigger] log[i]).0, log[i].1)
            &&& forall|k: int| 0 <= k < rpo.len() ==> logged(log, #[trigger] rpo[k])
            &&& forall|l: int, k: int|
                #![trigger log[l], g.ins(log[l].0)[k]]
                0 <= l < log.len() && !phi_kind(g.kind(log[l].0)) && 0 <= k < g.ins(
                    log[l].0,
                ).len() ==> stands_before(g, rpo, log, l, g.producer(g.ins(log[l].0)[k]))
        }),
{
    let rpo = cfg_rpo(g, entry);
    lemma_search_ends(g, entry);
    lemma_kept_after(g, entry, 0);
    let end = lemma_sched_ends_from(g, entry, 0);
    lemma_kept_after(g, entry, end);
    lemma_scheduled_unique(g, entry, end);
    let s = sched_after(g, rpo, end);
    assert forall|k: int| 0 <= k < rpo.len() implies logged(s.log, #[trigger] rpo[k]) by {
        assert(s.visited.contains(rpo[k]));
    }
}

/// A node that is no phi is placed after what it reads, but for control nodes,
/// which have their own blocks, and for what depends on the node itself.
pub proof fn law_inputs_are_placed_first(g: GraphModel, entry: NodeId, l: int, k: int)
    requires
        g.valid(),
        g.has_node(entry),
        0 <= l < placements(g, entry).len(),
        !phi_kind(g.kind(placements(g, entry)[l].0)),
        0 <= k < g.ins(placements(g, entry)[l].0).len(),
    ensures
        stands_before(
            g,
            cfg_rpo(g, entry),
            placements(g, entry),
            l,
            g.producer(g.ins(placements(g, entry)[l].0)[k]),
        ),
{
    lemma_placements(g, entry);
}

// -- from placements to print order -----------------------------------------------
/// `a` stands somewhere before `b`.
pub open spec fn precedes(order: Seq<NodeId>, a: NodeId, b: NodeId) -> bool {
    exists|x: int, y: int|
        #![trigger order[x], order[y]]
        0 <= x < y < order.len() && order[x] == a && order[y] == b
}

proof fn lemma_sunk_member(log: Seq<(NodeId, Sink)>, sink: Sink, a: int)
    requires
        0 <= a < log.len(),
        log[a].1 == sink,
    ensures
        exists|x: int| 0 <= x < sunk(log, sink).len() && #[trigger] sunk(log, sink)[x] == log[a].0,
    decreases log.len(),
{
    let rest = log.drop_last();
    if a == log.len() - 1 {
        assert(sunk(log, sink)[sunk(rest, sink).len() as int] == log[a].0);
    } else {
        assert(rest[a] == log[a]);
        lemma_sunk_member(rest, sink, a);
        let x = choose|x: int|
            0 <= x < sunk(rest, sink).len() && #[trigger] sunk(rest, sink)[x] == log[a].0;
        assert(sunk(log, sink)[x] == log[a].0);
    }
}

proof fn lemma_sunk_precedes(log: Seq<(NodeId, Sink)>, sink: Sink, a: int, b: int)
    requires
        0 <= a < b < log.len(),
        log[a].1 == sink,
        log[b].1 == sink,
    ensures
        precedes(sunk(log, sink), log[a].0, log[b].0),
    decreases log.len(),
{
    let rest = log.drop_last();
    assert(rest[a] == log[a]);
    let all = sunk(log, sink);
    if b == log.len() - 1 {
        lemma_sunk_member(rest, sink, a);
        let x = choose|x: int|
            0 <= x < sunk(rest, sink).len() && #[trigger] sunk(rest, sink)[x] == log[a].0;
        assert(all[x] == log[a].0);
        assert(all[sunk(rest, sink).len() as int] == log[b].0);
    } else {
        assert(rest[b] == log[b]);
        lemma_sunk_precedes(rest, sink, a, b);
        let part = sunk(rest, sink);
        let (x, y) = choose|x: int, y: int|
            #![trigger part[x], part[y]]
            0 <= x < y < part.len() && part[x] == log[a].0 && part[y] == log[b].0;
        assert(all[x] == part[x] && all[y] == part[y]);
    }
}

proof fn lemma_flat_grows(log: Seq<(NodeId, Sink)>, rpo: Seq<NodeId>, j: int, k: int)
    requires
        0 <= j <= k <= rpo.len(),
    ensures
        flat(log, rpo, j).len() <= flat(log, rpo, k).len(),
        forall|x: int|
            0 <= x < flat(log, rpo, j).len() ==> #[trigger] flat(log, rpo, k)[x] == flat(
                log,
                rpo,
                j,
            )[x],
    decreases k - j,
{
    if j < k {
        lemma_flat_grows(log, rpo, j, k - 1);
    }
}

/// The block of the `k`-th control node inside the order.
proof fn lemma_block_inside(log: Seq<(NodeId, Sink)>, rpo: Seq<NodeId>, k: int, x: int)
    requires
        0 <= k < rpo.len(),
        0 <= x < sunk(log, Some(rpo[k])).len(),
    ensures
        ({
            let at = flat(log, rpo, k).len() + x;
            &&& at < flat(log, rpo, k + 1).len()
            &&& at < order_of(log, rpo).len()
            &&& order_of(log, rpo)[at as int] == sunk(log, Some(rpo[k]))[x]
        }),
{
    lemma_flat_grows(log, rpo, k + 1, rpo.len() as int);
    let at = flat(log, rpo, k).len() + x;
    assert(flat(log, rpo, k + 1)[at as int] == sunk(log, Some(rpo[k]))[x]);
}

/// Nodes that are placed in one block come in the order they were placed.
proof fn lemma_block_order(log: Seq<(NodeId, Sink)>, rpo: Seq<NodeId>, a: int, b: int)
    requires
        0 <= a < b < log.len(),
        log[a].1 == log[b].1,
        sink_ok(rpo, false, log[a].1),
    ensures
        precedes(order_of(log, rpo), log[a].0, log[b].0),
{
    let sink = log[a].1;
    lemma_sunk_precedes(log, sink, a, b);
    let part = sunk(log, sink);
    let (x, y) = choose|x: int, y: int|
        #![trigger part[x], part[y]]
        0 <= x < y < part.len() && part[x] == log[a].0 && part[y] == log[b].0;
    let order = order_of(log, rpo);
    match sink {
        Some(block) => {
            let k = rpo.index_of(block);
            lemma_block_inside(log, rpo, k, x);
            lemma_block_inside(log, rpo, k, y);
            let base = flat(log, rpo, k).len();
            assert(order[base + x] == log[a].0 && order[base + y] == log[b].0);
        },
        None => {
            let base = flat(log, rpo, rpo.len() as int).len();
            assert(order[base + x] == log[a].0 && order[base + y] == log[b].0);
        },
    }
}

proof fn lemma_attached_grows(g: GraphModel, seq: Seq<NodeId>, j: int, k: int)
    requires
        0 <= j <= k <= seq.len(),
    ensures
        attached_upto(g, seq, j).len() <= attached_upto(g, seq, k).len(),
        forall|x: int|
            0 <= x < attached_upto(g, seq, j).len() ==> #[trigger] attached_upto(g, seq, k)[x]
                == attached_upto(g, seq, j)[x],
    decreases k - j,
{
    if j < k {
        lemma_attached_grows(g, seq, j, k - 1);
    }
}

/// Moving phis leaves the others in order.
proof fn lemma_attached_precedes(g: GraphModel, seq: Seq<NodeId>, a: NodeId, b: NodeId)
    requires
        precedes(seq, a, b),
        !moves(g, seq, a),
        !moves(g, seq, b),
    ensures
        precedes(attached(g, seq), a, b),
{
    let (x, y) = choose|x: int, y: int|
        #![trigger seq[x], seq[y]]
        0 <= x < y < seq.len() && seq[x] == a && seq[y] == b;
    let all = attached(g, seq);
    let p = attached_upto(g, seq, x).len();
    let q = attached_upto(g, seq, y).len();
    lemma_attached_grows(g, seq, x + 1, y);
    lemma_attached_grows(g, seq, x + 1, seq.len() as int);
    lemma_attached_grows(g, seq, y + 1, seq.len() as int);
    assert(attached_upto(g, seq, x + 1)[p as int] == a);
    assert(attached_upto(g, seq, y + 1)[q as int] == b);
    assert(all[p as int] == a && all[q as int] == b);
}

/// Nodes of one block print in the order they were placed, phis that move next
/// to their region aside: so what a node reads prints before it.
pub proof fn law_block_prints_as_placed(g: GraphModel, entry: NodeId, a: int, b: int)
    requires
        g.valid(),
        g.has_node(entry),
        0 <= a < b < placements(g, entry).len(),
        placements(g, entry)[a].1 == placements(g, entry)[b].1,
        !phi_kind(g.kind(placements(g, entry)[a].0)),
        !phi_kind(g.kind(placements(g, entry)[b].0)),
    ensures
        precedes(print_order(g, entry), placements(g, entry)[a].0, placements(g, entry)[b].0),
{
    lemma_placements(g, entry);
    let log = placements(g, entry);
    lemma_block_order(log, cfg_rpo(g, entry), a, b);
    lemma_attached_precedes(g, scheduled(g, entry), log[a].0, log[b].0);
}

/// Control nodes print in their reverse postorder.
pub proof fn law_control_prints_in_order(g: GraphModel, entry: NodeId, i: int, j: int)
    requires
        g.valid(),
        g.has_node(entry),
        0 <= i < j < cfg_rpo(g, entry).len(),
        !phi_kind(g.kind(cfg_rpo(g, entry)[i])),
        !phi_kind(g.kind(cfg_rpo(g, entry)[j])),
    ensures
        precedes(print_order(g, entry), cfg_rpo(g, entry)[i], cfg_rpo(g, entry)[j]),
{
    lemma_placements(g, entry);
    let rpo = cfg_rpo(g, entry);
    let log = placements(g, entry);
    assert forall|k: int| 0 <= k < rpo.len() implies exists|x: int|
        0 <= x < sunk(log, Some(rpo[k])).len() && #[trigger] sunk(log, Some(rpo[k]))[x]
            == #[trigger] rpo[k] by {
        assert(logged(log, rpo[k]));
        let l = choose|l: int| 0 <= l < log.len() && (#[trigger] log[l]).0 == rpo[k];
        assert(rpo.contains(rpo[k]));
        assert(own_block(rpo, log[l].0, log[l].1));
        lemma_sunk_member(log, Some(rpo[k]), l);
    }
    let x = choose|x: int|
        0 <= x < sunk(log, Some(rpo[i])).len() && #[trigger] sunk(log, Some(rpo[i]))[x] == rpo[i];
    let y = choose|y: int|
        0 <= y < sunk(log, Some(rpo[j])).len() && #[trigger] sunk(log, Some(rpo[j]))[y] == rpo[j];
    lemma_block_inside(log, rpo, i, x);
    lemma_block_inside(log, rpo, j, y);
    lemma_flat_grows(log, rpo, i + 1, j);
    let order = order_of(log, rpo);
    let (p, q) = (flat(log, rpo, i).len() + x, flat(log, rpo, j).len() + y);
    assert(order[p as int] == rpo[i] && order[q as int] == rpo[j]);
    lemma_attached_precedes(g, scheduled(g, entry), rpo[i], rpo[j]);
}

} // verus!
