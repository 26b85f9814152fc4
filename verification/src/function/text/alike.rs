//! Graphs that look alike print in the same order: the order reads no id.

use super::order::{
    cfg_rpo, cfg_succs, cfg_succs_upto, deferred, done, edge_source, entering, flat, frame_node,
    known, lemma_cfg_rpo_unique, lemma_known_producer, lemma_known_succ, lemma_scheduled_unique,
    lemma_search_step_inv, lemma_seen_bounded, logged, nodes_of, order_of, phi_kind, pulled,
    region_of, sched_after, sched_closed, sched_once, sched_sound, sched_start, scheduled,
    search_after, search_inv, search_left, search_start, search_step, sink_ok, step, sunk,
    waiting_for, Deferred, Frame, Sched, Search, Sink,
};
use super::orderer::{attached_upto, belongs, lemma_attached, moves, phis_of, print_order};
use super::settle::{
    inner_left, lemma_done_reachable, lemma_order, lemma_step_closed, lemma_step_decreases,
    lemma_step_once, lemma_step_sound, outer_left, unstarted,
};
use crate::graph::model::GraphModel;
use crate::node::{NodeId, ValueId, ValueKind};
use vstd::prelude::*;

verus! {

// -- both machines come to an end -----------------------------------------------
pub(crate) proof fn lemma_search_starts(g: GraphModel, entry: NodeId)
    requires
        g.has_node(entry),
    ensures
        search_inv(g, entry, search_start(entry)),
{
    let s = search_start(entry);
    crate::graph::walk::lemma_reachable_self(g, entry);
    assert(s.seen[0] == entry);
    assert(s.stack[0].0 == entry);
    assert forall|m: NodeId| #[trigger] s.seen.contains(m) implies exists|j: int|
        0 <= j < s.stack.len() && (#[trigger] s.stack[j]).0 == m by {
        assert(s.stack[0].0 == m);
    }
}

proof fn lemma_search_ends_from(g: GraphModel, entry: NodeId, n: nat) -> (end: nat)
    requires
        g.valid(),
        search_inv(g, entry, search_after(g, entry, n)),
    ensures
        search_after(g, entry, end).stack.len() == 0,
        search_inv(g, entry, search_after(g, entry, end)),
    decreases
            g.nodes.len() - search_after(g, entry, n).seen.len(),
            search_left(g, search_after(g, entry, n).stack),
{
    let s = search_after(g, entry, n);
    if s.stack.len() == 0 {
        n
    } else {
        let t = search_step(g, s);
        assert(t == search_after(g, entry, n + 1));
        lemma_search_step_inv(g, entry, s);
        lemma_seen_bounded(g, entry, t);
        let (node, idx) = s.stack.last();
        let moved = s.stack.drop_last().push((node, idx + 1));
        assert(moved.drop_last() =~= s.stack.drop_last());
        lemma_search_ends_from(g, entry, n + 1)
    }
}

/// The search ends, and finds each control node once.
pub(crate) proof fn lemma_search_ends(g: GraphModel, entry: NodeId) -> (end: nat)
    requires
        g.valid(),
        g.has_node(entry),
    ensures
        search_after(g, entry, end).stack.len() == 0,
        cfg_rpo(g, entry) == search_after(g, entry, end).post.reverse(),
        cfg_rpo(g, entry).no_duplicates(),
        cfg_rpo(g, entry).contains(entry),
        forall|i: int|
            0 <= i < cfg_rpo(g, entry).len() ==> known(g, entry, #[trigger] cfg_rpo(g, entry)[i]),
{
    lemma_search_starts(g, entry);
    let end = lemma_search_ends_from(g, entry, 0);
    lemma_cfg_rpo_unique(g, entry, end);
    let s = search_after(g, entry, end);
    let r = cfg_rpo(g, entry);
    assert(s.seen.contains(s.seen[0]));
    assert(s.post.contains(entry));
    let x = s.post.index_of(entry);
    assert(r[s.post.len() - 1 - x] == entry);
    assert forall|i: int| 0 <= i < r.len() implies known(g, entry, #[trigger] r[i]) by {
        assert(s.seen.contains(s.post[s.post.len() - 1 - i]));
        let y = s.seen.index_of(r[i]);
        assert(g.has_node(s.seen[y]));
    }
    end
}

pub(crate) proof fn lemma_sched_ends_from(g: GraphModel, entry: NodeId, n: nat) -> (end: nat)
    requires
        g.valid(),
        g.has_node(entry),
        ({
            let rpo = cfg_rpo(g, entry);
            let s = sched_after(g, rpo, n);
            &&& sched_sound(g, entry, rpo, s)
            &&& sched_once(s)
            &&& sched_closed(g, rpo, s)
        }),
    ensures
        ({
            let rpo = cfg_rpo(g, entry);
            let s = sched_after(g, rpo, end);
            &&& done(rpo, s)
            &&& sched_sound(g, entry, rpo, s)
            &&& sched_once(s)
            &&& sched_closed(g, rpo, s)
        }),
    decreases
            unstarted(g, sched_after(g, cfg_rpo(g, entry), n)),
            outer_left(g, cfg_rpo(g, entry), sched_after(g, cfg_rpo(g, entry), n)),
            inner_left(g, sched_after(g, cfg_rpo(g, entry), n)),
{
    let rpo = cfg_rpo(g, entry);
    let s = sched_after(g, rpo, n);
    if done(rpo, s) {
        n
    } else {
        lemma_search_ends(g, entry);
        assert(step(g, rpo, s) == sched_after(g, rpo, n + 1));
        lemma_step_sound(g, entry, rpo, s);
        lemma_step_once(g, rpo, s);
        lemma_step_closed(g, entry, rpo, s);
        lemma_step_decreases(g, entry, rpo, s);
        lemma_sched_ends_from(g, entry, n + 1)
    }
}

/// The scheduler ends, having placed each node that can be reached once.
pub(crate) proof fn lemma_sched_ends(g: GraphModel, entry: NodeId) -> (end: nat)
    requires
        g.valid(),
        g.has_node(entry),
    ensures
        ({
            let rpo = cfg_rpo(g, entry);
            let s = sched_after(g, rpo, end);
            &&& done(rpo, s)
            &&& scheduled(g, entry) == order_of(s.log, rpo)
        }),
        scheduled(g, entry).no_duplicates(),
        forall|n: NodeId| #[trigger] scheduled(g, entry).contains(n) <==> known(g, entry, n),
{
    lemma_search_ends(g, entry);
    let end = lemma_sched_ends_from(g, entry, 0);
    lemma_scheduled_unique(g, entry, end);
    lemma_done_reachable(g, entry, cfg_rpo(g, entry), sched_after(g, cfg_rpo(g, entry), end));
    end
}

/// Exactly what can be reached prints, each node once.
pub proof fn law_print_order_reachable(g: GraphModel, entry: NodeId)
    requires
        g.valid(),
        g.has_node(entry),
    ensures
        print_order(g, entry).no_duplicates(),
        forall|n: NodeId| #[trigger] print_order(g, entry).contains(n) <==> known(g, entry, n),
{
    let end = lemma_sched_ends(g, entry);
    lemma_attached(g, scheduled(g, entry));
}

// -- one graph under other names ------------------------------------------------
/// Which node, and which value, of one graph stands for which of another.
pub struct Renaming {
    pub nodes: spec_fn(NodeId) -> NodeId,
    pub values: spec_fn(ValueId) -> ValueId,
}

impl Renaming {
    pub open spec fn node(self, n: NodeId) -> NodeId {
        (self.nodes)(n)
    }

    pub open spec fn value(self, v: ValueId) -> ValueId {
        (self.values)(v)
    }

    /// Nodes under their other names.
    pub open spec fn all(self, s: Seq<NodeId>) -> Seq<NodeId> {
        Seq::new(s.len(), |i: int| self.node(s[i]))
    }

    /// Values under their other names.
    pub open spec fn all_values(self, s: Seq<ValueId>) -> Seq<ValueId> {
        Seq::new(s.len(), |i: int| self.value(s[i]))
    }

    spec fn sink(self, sink: Sink) -> Sink {
        match sink {
            Some(b) => Some(self.node(b)),
            None => None,
        }
    }

    spec fn placed(self, s: Seq<(NodeId, Sink)>) -> Seq<(NodeId, Sink)> {
        Seq::new(s.len(), |i: int| (self.node(s[i].0), self.sink(s[i].1)))
    }

    spec fn pairs(self, s: Seq<(NodeId, NodeId)>) -> Seq<(NodeId, NodeId)> {
        Seq::new(s.len(), |i: int| (self.node(s[i].0), self.node(s[i].1)))
    }

    spec fn frame(self, frame: Frame) -> Frame {
        match frame {
            Frame::Enter(n) => Frame::Enter(self.node(n)),
            Frame::Resume(n, slot) => Frame::Resume(self.node(n), slot),
        }
    }

    spec fn frames(self, s: Seq<Frame>) -> Seq<Frame> {
        Seq::new(s.len(), |i: int| self.frame(s[i]))
    }

    spec fn search(self, s: Search) -> Search {
        Search {
            seen: self.all(s.seen),
            post: self.all(s.post),
            stack: Seq::new(s.stack.len(), |i: int| (self.node(s.stack[i].0), s.stack[i].1)),
        }
    }

    spec fn sched(self, s: Sched) -> Sched {
        Sched {
            visited: self.all(s.visited),
            log: self.placed(s.log),
            waiting: self.pairs(s.waiting),
            jobs: self.placed(s.jobs),
            next_job: s.next_job,
            sink: self.sink(s.sink),
            stack: self.frames(s.stack),
            due: self.all(s.due),
            next_due: s.next_due,
            due_sink: self.sink(s.due_sink),
            at: s.at,
            stage: s.stage,
            sealed: s.sealed,
        }
    }

    spec fn deferred(self, d: Deferred) -> Deferred {
        Deferred {
            jobs: self.placed(d.jobs),
            waiting: self.pairs(d.waiting),
            here: self.all(d.here),
        }
    }
}

/// Node `n` of `g` looks like its other name in `h`: it reads and defines the
/// same values under their other names, it is a phi or a region if that is,
/// and its control outputs are read by the same nodes.
pub open spec fn node_alike(g: GraphModel, h: GraphModel, r: Renaming, n: NodeId) -> bool {
    let m = r.node(n);
    &&& h.has_node(m)
    &&& phi_kind(h.kind(m)) == phi_kind(g.kind(n))
    &&& (h.kind(m) is Region) == (g.kind(n) is Region)
    &&& h.ins(m) == r.all_values(g.ins(n))
    &&& h.outs(m) == r.all_values(g.outs(n))
    &&& forall|i: int|
        0 <= i < g.ins(n).len() ==> h.producer(r.value(#[trigger] g.ins(n)[i])) == r.node(
            g.producer(g.ins(n)[i]),
        )
    &&& forall|i: int|
        0 <= i < g.outs(n).len() ==> h.value_kind(r.value(#[trigger] g.outs(n)[i]))
            == g.value_kind(g.outs(n)[i])
    &&& forall|i: int|
        0 <= i < g.outs(n).len() && g.value_kind(#[trigger] g.outs(n)[i]) == ValueKind::Control
            ==> nodes_of(h.reader_positions(r.value(g.outs(n)[i]))) == r.all(
            nodes_of(g.reader_positions(g.outs(n)[i])),
        )
}

/// What can be reached from `entry` in `g` looks like its other names in `h`,
/// and no two nodes share one.
pub open spec fn graph_alike(g: GraphModel, h: GraphModel, entry: NodeId, r: Renaming) -> bool {
    &&& forall|n: NodeId| #[trigger] known(g, entry, n) ==> node_alike(g, h, r, n)
    &&& forall|a: NodeId, b: NodeId|
        known(g, entry, a) && known(g, entry, b) && #[trigger] r.node(a) == #[trigger] r.node(b)
            ==> a == b
}

/// Every node of `s` can be reached.
spec fn all_known(g: GraphModel, entry: NodeId, s: Seq<NodeId>) -> bool {
    forall|i: int| 0 <= i < s.len() ==> known(g, entry, #[trigger] s[i])
}

proof fn lemma_renamed_member(
    g: GraphModel,
    h: GraphModel,
    entry: NodeId,
    r: Renaming,
    s: Seq<NodeId>,
    n: NodeId,
)
    requires
        graph_alike(g, h, entry, r),
        all_known(g, entry, s),
        known(g, entry, n),
    ensures
        r.all(s).contains(r.node(n)) <==> s.contains(n),
{
    if s.contains(n) {
        let i = s.index_of(n);
        assert(r.all(s)[i] == r.node(n));
    }
    if r.all(s).contains(r.node(n)) {
        let i = r.all(s).index_of(r.node(n));
        assert(known(g, entry, s[i]));
        assert(r.node(s[i]) == r.node(n));
    }
}

proof fn lemma_succs_upto_alike(
    g: GraphModel,
    h: GraphModel,
    r: Renaming,
    n: NodeId,
    k: int,
)
    requires
        node_alike(g, h, r, n),
        0 <= k <= g.outs(n).len(),
    ensures
        cfg_succs_upto(h, r.node(n), k) == r.all(cfg_succs_upto(g, n, k)),
    decreases k,
{
    if k > 0 {
        lemma_succs_upto_alike(g, h, r, n, k - 1);
        let v = g.outs(n)[k - 1];
        assert(h.outs(r.node(n))[k - 1] == r.value(v));
    }
    assert(cfg_succs_upto(h, r.node(n), k) =~= r.all(cfg_succs_upto(g, n, k)));
}

proof fn lemma_succs_alike(g: GraphModel, h: GraphModel, r: Renaming, n: NodeId)
    requires
        node_alike(g, h, r, n),
    ensures
        cfg_succs(h, r.node(n)) == r.all(cfg_succs(g, n)),
{
    lemma_succs_upto_alike(g, h, r, n, g.outs(n).len() as int);
}

proof fn lemma_search_step_alike(
    g: GraphModel,
    h: GraphModel,
    entry: NodeId,
    r: Renaming,
    s: Search,
)
    requires
        g.valid(),
        graph_alike(g, h, entry, r),
        search_inv(g, entry, s),
    ensures
        search_step(h, r.search(s)) == r.search(search_step(g, s)),
{
    if s.stack.len() > 0 {
        let (node, idx) = s.stack.last();
        assert(s.stack[s.stack.len() - 1] == (node, idx));
        assert(s.seen.contains(node));
        let y = s.seen.index_of(node);
        assert(known(g, entry, s.seen[y]));
        lemma_succs_alike(g, h, r, node);
        let succs = cfg_succs(g, node);
        let a = search_step(h, r.search(s));
        let b = r.search(search_step(g, s));
        if idx < succs.len() {
            let succ = succs[succs.len() - 1 - idx];
            lemma_known_succ(g, entry, node, succs.len() - 1 - idx);
            assert(all_known(g, entry, s.seen));
            lemma_renamed_member(g, h, entry, r, s.seen, succ);
            assert(a.stack =~= b.stack);
            assert(a.seen =~= b.seen);
            assert(a.post =~= b.post);
        } else {
            assert(a.stack =~= b.stack);
            assert(a.post =~= b.post);
        }
    }
}

proof fn lemma_search_alike(
    g: GraphModel,
    h: GraphModel,
    entry: NodeId,
    r: Renaming,
    n: nat,
)
    requires
        g.valid(),
        g.has_node(entry),
        graph_alike(g, h, entry, r),
    ensures
        search_inv(g, entry, search_after(g, entry, n)),
        search_after(h, r.node(entry), n) == r.search(search_after(g, entry, n)),
    decreases n,
{
    if n == 0 {
        lemma_search_starts(g, entry);
        let a = search_start(r.node(entry));
        let b = r.search(search_start(entry));
        assert(a.seen =~= b.seen);
        assert(a.post =~= b.post);
        assert(a.stack =~= b.stack);
    } else {
        let m = (n - 1) as nat;
        lemma_search_alike(g, h, entry, r, m);
        lemma_search_step_inv(g, entry, search_after(g, entry, m));
        lemma_search_step_alike(g, h, entry, r, search_after(g, entry, m));
    }
}

proof fn lemma_rpo_alike(g: GraphModel, h: GraphModel, entry: NodeId, r: Renaming)
    requires
        g.valid(),
        g.has_node(entry),
        graph_alike(g, h, entry, r),
    ensures
        cfg_rpo(h, r.node(entry)) == r.all(cfg_rpo(g, entry)),
{
    let end = lemma_search_ends(g, entry);
    lemma_search_alike(g, h, entry, r, end);
    lemma_cfg_rpo_unique(h, r.node(entry), end);
    assert(cfg_rpo(h, r.node(entry)) =~= r.all(cfg_rpo(g, entry)));
}

// -- the scheduler under other names --------------------------------------------
/// The sinks of a log exist.
spec fn sinks_known(g: GraphModel, entry: NodeId, log: Seq<(NodeId, Sink)>) -> bool {
    forall|i: int|
        0 <= i < log.len() ==> ((#[trigger] log[i]).1 matches Some(b) ==> known(g, entry, b))
}

proof fn lemma_sunk_alike(
    g: GraphModel,
    h: GraphModel,
    entry: NodeId,
    r: Renaming,
    log: Seq<(NodeId, Sink)>,
    sink: Sink,
)
    requires
        graph_alike(g, h, entry, r),
        sinks_known(g, entry, log),
        sink matches Some(b) ==> known(g, entry, b),
    ensures
        sunk(r.placed(log), r.sink(sink)) == r.all(sunk(log, sink)),
    decreases log.len(),
{
    if log.len() > 0 {
        let rest = log.drop_last();
        assert forall|i: int| 0 <= i < rest.len() implies ((#[trigger] rest[i]).1 matches Some(b)
            ==> known(g, entry, b)) by {
            assert(rest[i] == log[i]);
        }
        lemma_sunk_alike(g, h, entry, r, rest, sink);
        assert(r.placed(log).drop_last() =~= r.placed(rest));
        assert(log[log.len() - 1] == log.last());
        assert(r.placed(log).last() == (r.node(log.last().0), r.sink(log.last().1)));
        assert((r.sink(log.last().1) == r.sink(sink)) == (log.last().1 == sink)) by {
            match (log.last().1, sink) {
                (Some(a), Some(b)) => {
                    assert(r.node(a) == r.node(b) ==> a == b);
                },
                _ => {},
            }
        }
    }
    assert(sunk(r.placed(log), r.sink(sink)) =~= r.all(sunk(log, sink)));
}

proof fn lemma_flat_alike(
    g: GraphModel,
    h: GraphModel,
    entry: NodeId,
    r: Renaming,
    log: Seq<(NodeId, Sink)>,
    rpo: Seq<NodeId>,
    k: int,
)
    requires
        graph_alike(g, h, entry, r),
        sinks_known(g, entry, log),
        all_known(g, entry, rpo),
        0 <= k <= rpo.len(),
    ensures
        flat(r.placed(log), r.all(rpo), k) == r.all(flat(log, rpo, k)),
    decreases k,
{
    if k > 0 {
        lemma_flat_alike(g, h, entry, r, log, rpo, k - 1);
        assert(known(g, entry, rpo[k - 1]));
        lemma_sunk_alike(g, h, entry, r, log, Some(rpo[k - 1]));
    }
    assert(flat(r.placed(log), r.all(rpo), k) =~= r.all(flat(log, rpo, k)));
}

proof fn lemma_order_alike(
    g: GraphModel,
    h: GraphModel,
    entry: NodeId,
    r: Renaming,
    log: Seq<(NodeId, Sink)>,
    rpo: Seq<NodeId>,
)
    requires
        graph_alike(g, h, entry, r),
        sinks_known(g, entry, log),
        all_known(g, entry, rpo),
    ensures
        order_of(r.placed(log), r.all(rpo)) == r.all(order_of(log, rpo)),
{
    lemma_flat_alike(g, h, entry, r, log, rpo, rpo.len() as int);
    lemma_sunk_alike(g, h, entry, r, log, None);
    assert(order_of(r.placed(log), r.all(rpo)) =~= r.all(order_of(log, rpo)));
}

proof fn lemma_waiting_alike(
    g: GraphModel,
    h: GraphModel,
    entry: NodeId,
    r: Renaming,
    waiting: Seq<(NodeId, NodeId)>,
    pred: NodeId,
)
    requires
        graph_alike(g, h, entry, r),
        forall|i: int| 0 <= i < waiting.len() ==> known(g, entry, (#[trigger] waiting[i]).0),
        known(g, entry, pred),
    ensures
        waiting_for(r.pairs(waiting), r.node(pred)) == r.all(waiting_for(waiting, pred)),
    decreases waiting.len(),
{
    if waiting.len() > 0 {
        let rest = waiting.drop_last();
        assert forall|i: int| 0 <= i < rest.len() implies known(
            g,
            entry,
            (#[trigger] rest[i]).0,
        ) by {
            assert(rest[i] == waiting[i]);
        }
        lemma_waiting_alike(g, h, entry, r, rest, pred);
        assert(r.pairs(waiting).drop_last() =~= r.pairs(rest));
        let last = waiting[waiting.len() - 1];
        assert(known(g, entry, last.0));
        assert(r.node(last.0) == r.node(pred) ==> last.0 == pred);
    }
    assert(waiting_for(r.pairs(waiting), r.node(pred)) =~= r.all(waiting_for(waiting, pred)));
}

proof fn lemma_region_alike(g: GraphModel, h: GraphModel, entry: NodeId, r: Renaming, phi: NodeId)
    requires
        g.valid(),
        graph_alike(g, h, entry, r),
        known(g, entry, phi),
    ensures
        region_of(h, r.node(phi)) == r.sink(region_of(g, phi)),
        region_of(g, phi) matches Some(region) ==> known(g, entry, region),
{
    assert(node_alike(g, h, r, phi));
    if g.ins(phi).len() > 0 {
        lemma_known_producer(g, entry, phi, 0);
        let region = g.producer(g.ins(phi)[0]);
        assert(node_alike(g, h, r, region));
        assert(h.ins(r.node(phi))[0] == r.value(g.ins(phi)[0]));
    }
}

proof fn lemma_edge_alike(
    g: GraphModel,
    h: GraphModel,
    entry: NodeId,
    r: Renaming,
    phi: NodeId,
    slot: int,
)
    requires
        g.valid(),
        graph_alike(g, h, entry, r),
        known(g, entry, phi),
    ensures
        edge_source(h, r.node(phi), slot) == r.sink(edge_source(g, phi, slot)),
        edge_source(g, phi, slot) matches Some(pred) ==> known(g, entry, pred),
{
    lemma_region_alike(g, h, entry, r, phi);
    if let Some(region) = region_of(g, phi) {
        assert(node_alike(g, h, r, region));
        if slot >= 1 && slot - 1 < g.ins(region).len() {
            lemma_known_producer(g, entry, region, slot - 1);
            assert(h.ins(r.node(region))[slot - 1] == r.value(g.ins(region)[slot - 1]));
        }
    }
}

proof fn lemma_deferred_alike(
    g: GraphModel,
    h: GraphModel,
    entry: NodeId,
    r: Renaming,
    rpo: Seq<NodeId>,
    s: Sched,
    phi: NodeId,
    k: int,
)
    requires
        g.valid(),
        graph_alike(g, h, entry, r),
        all_known(g, entry, rpo),
        all_known(g, entry, s.visited),
        known(g, entry, phi),
        0 <= k <= g.ins(phi).len(),
    ensures
        deferred(h, r.all(rpo), r.sched(s), r.node(phi), k) == r.deferred(
            deferred(g, rpo, s, phi, k),
        ),
    decreases k,
{
    let a = deferred(h, r.all(rpo), r.sched(s), r.node(phi), k);
    let b = r.deferred(deferred(g, rpo, s, phi, k));
    if k > 0 {
        lemma_deferred_alike(g, h, entry, r, rpo, s, phi, k - 1);
        assert(node_alike(g, h, r, phi));
        lemma_known_producer(g, entry, phi, k - 1);
        let producer = g.producer(g.ins(phi)[k - 1]);
        assert(h.producer(h.ins(r.node(phi))[k - 1]) == r.node(producer));
        lemma_renamed_member(g, h, entry, r, s.visited, producer);
        lemma_renamed_member(g, h, entry, r, rpo, producer);
        lemma_edge_alike(g, h, entry, r, phi, k - 1);
        if let Some(pred) = edge_source(g, phi, k - 1) {
            lemma_renamed_member(g, h, entry, r, rpo, pred);
            lemma_renamed_member(g, h, entry, r, s.visited, pred);
        }
    }
    assert(a.jobs =~= b.jobs);
    assert(a.waiting =~= b.waiting);
    assert(a.here =~= b.here);
}

proof fn lemma_pulled_alike(
    g: GraphModel,
    h: GraphModel,
    entry: NodeId,
    r: Renaming,
    rpo: Seq<NodeId>,
    s: Sched,
)
    requires
        g.valid(),
        graph_alike(g, h, entry, r),
        all_known(g, entry, rpo),
        sched_sound(g, entry, rpo, s),
        s.stack.len() > 0,
    ensures
        pulled(h, r.all(rpo), r.sched(s)) == r.sched(pulled(g, rpo, s)),
{
    let a = pulled(h, r.all(rpo), r.sched(s));
    let b = r.sched(pulled(g, rpo, s));
    let top = s.stack.len() - 1;
    assert(known(g, entry, frame_node(s.stack[top])));
    assert(r.sched(s).stack.last() == r.frame(s.stack.last()));
    assert(r.sched(s).stack.drop_last() =~= r.frames(s.stack.drop_last()));
    assert(all_known(g, entry, s.visited));
    match s.stack.last() {
        Frame::Enter(node) => {
            lemma_renamed_member(g, h, entry, r, s.visited, node);
        },
        Frame::Resume(node, slot) => {
            assert(node_alike(g, h, r, node));
            if !phi_kind(g.kind(node)) && slot < g.ins(node).len() {
                lemma_known_producer(g, entry, node, slot as int);
                let producer = g.producer(g.ins(node)[slot as int]);
                assert(h.producer(h.ins(r.node(node))[slot as int]) == r.node(producer));
                lemma_renamed_member(g, h, entry, r, rpo, producer);
            } else if phi_kind(g.kind(node)) {
                let k = g.ins(node).len() as int;
                lemma_deferred_alike(g, h, entry, r, rpo, s, node, k);
                let d = deferred(g, rpo, s, node, k);
                assert(entering(r.all(d.here)) =~= r.frames(entering(d.here)));
            }
        },
    }
    assert(a.visited =~= b.visited);
    assert(a.log =~= b.log);
    assert(a.stack =~= b.stack);
    assert(a.jobs =~= b.jobs);
    assert(a.waiting =~= b.waiting);
}

/// The parts of a state that the renaming of orders needs.
proof fn lemma_sound_parts(g: GraphModel, entry: NodeId, rpo: Seq<NodeId>, s: Sched)
    requires
        all_known(g, entry, rpo),
        rpo.no_duplicates(),
        sched_sound(g, entry, rpo, s),
        sched_once(s),
    ensures
        sinks_known(g, entry, s.log),
        forall|i: int| 0 <= i < s.waiting.len() ==> known(g, entry, (#[trigger] s.waiting[i]).0),
        all_known(g, entry, order_of(s.log, rpo)),
{
    assert forall|i: int| 0 <= i < s.log.len() implies ((#[trigger] s.log[i]).1 matches Some(b)
        ==> known(g, entry, b)) by {
        assert(sink_ok(rpo, false, s.log[i].1));
        if let Some(b) = s.log[i].1 {
            let x = rpo.index_of(b);
            assert(known(g, entry, rpo[x]));
        }
    }
    assert forall|i: int| 0 <= i < s.waiting.len() implies known(
        g,
        entry,
        (#[trigger] s.waiting[i]).0,
    ) by {
        let x = rpo.index_of(s.waiting[i].0);
        assert(known(g, entry, rpo[x]));
    }
    lemma_order(s.log, rpo);
    let order = order_of(s.log, rpo);
    assert forall|i: int| 0 <= i < order.len() implies known(g, entry, #[trigger] order[i]) by {
        assert(order.contains(order[i]));
        assert(logged(s.log, order[i]));
        let j = choose|j: int| 0 <= j < s.log.len() && (#[trigger] s.log[j]).0 == order[i];
        assert(s.visited.contains(s.log[j].0));
        let y = s.visited.index_of(order[i]);
        assert(known(g, entry, s.visited[y]));
    }
}

proof fn lemma_step_alike(
    g: GraphModel,
    h: GraphModel,
    entry: NodeId,
    r: Renaming,
    rpo: Seq<NodeId>,
    s: Sched,
)
    requires
        g.valid(),
        graph_alike(g, h, entry, r),
        all_known(g, entry, rpo),
        rpo.no_duplicates(),
        sched_sound(g, entry, rpo, s),
        sched_once(s),
    ensures
        step(h, r.all(rpo), r.sched(s)) == r.sched(step(g, rpo, s)),
        done(r.all(rpo), r.sched(s)) == done(rpo, s),
{
    let a = step(h, r.all(rpo), r.sched(s));
    let b = r.sched(step(g, rpo, s));
    lemma_sound_parts(g, entry, rpo, s);
    lemma_order_alike(g, h, entry, r, s.log, rpo);
    if s.stack.len() > 0 {
        lemma_pulled_alike(g, h, entry, r, rpo, s);
    } else if s.next_job < s.jobs.len() {
        assert(a.stack =~= b.stack);
    } else if s.next_due < s.due.len() {
        assert(a.jobs =~= b.jobs);
    } else if !s.sealed {
        if s.at < rpo.len() {
            let node = rpo[s.at as int];
            assert(known(g, entry, node));
            lemma_waiting_alike(g, h, entry, r, s.waiting, node);
            assert(a.due =~= b.due);
        }
    } else if s.at < order_of(s.log, rpo).len() {
        let node = order_of(s.log, rpo)[s.at as int];
        assert(known(g, entry, node));
        lemma_succs_alike(g, h, r, node);
        assert(a.due =~= b.due);
    }
}

proof fn lemma_sched_alike(
    g: GraphModel,
    h: GraphModel,
    entry: NodeId,
    r: Renaming,
    n: nat,
)
    requires
        g.valid(),
        g.has_node(entry),
        graph_alike(g, h, entry, r),
    ensures
        ({
            let rpo = cfg_rpo(g, entry);
            let s = sched_after(g, rpo, n);
            &&& sched_sound(g, entry, rpo, s)
            &&& sched_once(s)
            &&& sched_after(h, r.all(rpo), n) == r.sched(s)
        }),
    decreases n,
{
    let rpo = cfg_rpo(g, entry);
    lemma_search_ends(g, entry);
    if n == 0 {
        let a = sched_start();
        let b = r.sched(sched_start());
        assert(a.visited =~= b.visited);
        assert(a.log =~= b.log);
        assert(a.waiting =~= b.waiting);
        assert(a.jobs =~= b.jobs);
        assert(a.stack =~= b.stack);
        assert(a.due =~= b.due);
    } else {
        let m = (n - 1) as nat;
        lemma_sched_alike(g, h, entry, r, m);
        let s = sched_after(g, rpo, m);
        lemma_step_alike(g, h, entry, r, rpo, s);
        lemma_step_sound(g, entry, rpo, s);
        lemma_step_once(g, rpo, s);
    }
}

proof fn lemma_scheduled_alike(g: GraphModel, h: GraphModel, entry: NodeId, r: Renaming)
    requires
        g.valid(),
        g.has_node(entry),
        graph_alike(g, h, entry, r),
    ensures
        scheduled(h, r.node(entry)) == r.all(scheduled(g, entry)),
{
    let rpo = cfg_rpo(g, entry);
    lemma_search_ends(g, entry);
    let end = lemma_sched_ends(g, entry);
    let s = sched_after(g, rpo, end);
    lemma_rpo_alike(g, h, entry, r);
    lemma_sched_alike(g, h, entry, r, end);
    lemma_step_alike(g, h, entry, r, rpo, s);
    lemma_scheduled_unique(h, r.node(entry), end);
    lemma_sound_parts(g, entry, rpo, s);
    lemma_order_alike(g, h, entry, r, s.log, rpo);
}

// -- phis under other names -----------------------------------------------------
proof fn lemma_phis_alike(
    g: GraphModel,
    h: GraphModel,
    entry: NodeId,
    r: Renaming,
    seq: Seq<NodeId>,
    region: NodeId,
)
    requires
        g.valid(),
        graph_alike(g, h, entry, r),
        all_known(g, entry, seq),
        known(g, entry, region),
    ensures
        phis_of(h, r.all(seq), r.node(region)) == r.all(phis_of(g, seq, region)),
    decreases seq.len(),
{
    if seq.len() > 0 {
        let rest = seq.drop_last();
        let last = seq[seq.len() - 1];
        assert forall|i: int| 0 <= i < rest.len() implies known(g, entry, #[trigger] rest[i]) by {
            assert(rest[i] == seq[i]);
        }
        lemma_phis_alike(g, h, entry, r, rest, region);
        assert(r.all(seq).drop_last() =~= r.all(rest));
        assert(node_alike(g, h, r, last));
        lemma_region_alike(g, h, entry, r, last);
        if let Some(own) = region_of(g, last) {
            assert(r.node(own) == r.node(region) ==> own == region);
        }
        assert(belongs(h, r.node(last), r.node(region)) == belongs(g, last, region));
    }
    assert(phis_of(h, r.all(seq), r.node(region)) =~= r.all(phis_of(g, seq, region)));
}

proof fn lemma_attached_alike(
    g: GraphModel,
    h: GraphModel,
    entry: NodeId,
    r: Renaming,
    seq: Seq<NodeId>,
    k: int,
)
    requires
        g.valid(),
        graph_alike(g, h, entry, r),
        all_known(g, entry, seq),
        0 <= k <= seq.len(),
    ensures
        attached_upto(h, r.all(seq), k) == r.all(attached_upto(g, seq, k)),
    decreases k,
{
    if k > 0 {
        lemma_attached_alike(g, h, entry, r, seq, k - 1);
        let n = seq[k - 1];
        assert(node_alike(g, h, r, n));
        lemma_region_alike(g, h, entry, r, n);
        lemma_phis_alike(g, h, entry, r, seq, n);
        if let Some(region) = region_of(g, n) {
            lemma_renamed_member(g, h, entry, r, seq, region);
        }
        assert(moves(h, r.all(seq), r.node(n)) == moves(g, seq, n));
    }
    assert(attached_upto(h, r.all(seq), k) =~= r.all(attached_upto(g, seq, k)));
}

/// Graphs that look alike print their nodes in the same order: it depends on
/// no id, and on use lists only through the readers of control outputs.
pub proof fn law_print_order_alike(g: GraphModel, h: GraphModel, entry: NodeId, r: Renaming)
    requires
        g.valid(),
        g.has_node(entry),
        graph_alike(g, h, entry, r),
    ensures
        print_order(h, r.node(entry)) == r.all(print_order(g, entry)),
{
    lemma_scheduled_alike(g, h, entry, r);
    let end = lemma_sched_ends(g, entry);
    let seq = scheduled(g, entry);
    assert forall|i: int| 0 <= i < seq.len() implies known(g, entry, #[trigger] seq[i]) by {
        assert(seq.contains(seq[i]));
    }
    lemma_attached_alike(g, h, entry, r, seq, seq.len() as int);
}

} // verus!
