//! The scheduler at work, and the text it yields.

use super::order::{
    cfg_reverse_postorder, cfg_rpo, cfg_succs_of, deferred, done, edge_source, entering, flat,
    is_phi, known, lemma_scheduled_unique, order_of, phi_kind, phi_region, region_of, sched_after,
    sched_closed, sched_once, sched_sound, sched_start, scheduled, step, sunk, waiting_for, Frame,
    Sched, Sink,
};
use super::render::{function_text, render};
use super::settle::{
    inner_left, lemma_done_reachable, lemma_flat_tail, lemma_order, lemma_step_closed,
    lemma_step_decreases, lemma_step_once, lemma_step_sound, lemma_sunk_push, outer_left, unstarted,
};
use crate::entity_set::{lemma_push_member, NodeIdSet};
use crate::function::func::Function;
use crate::graph::model::GraphModel;
use crate::graph::walk::reachable;
use crate::node::NodeId;
use vstd::prelude::*;

verus! {

/// The scheduler: `s` is its state, the other fields hold it.
pub struct Orderer<'a> {
    f: &'a Function,
    rpo: Vec<NodeId>,
    in_cfg: NodeIdSet,
    visited: NodeIdSet,
    /// Per control node: its unprinted data inputs, itself, then the phi
    /// inputs its outgoing edge carries.
    blocks: Vec<Vec<NodeId>>,
    /// Phi inputs waiting for a control node to print.
    waiting: Vec<Vec<NodeId>>,
    /// Nodes reached only past the control walk, after every block.
    tail: Vec<NodeId>,
    /// The blocks one after another, once they are all done.
    front: Vec<NodeId>,
    /// Blocks are flattened; everything further goes to the tail.
    sealed: bool,
    jobs: Vec<(NodeId, Sink)>,
    next_job: usize,
    sink: Sink,
    stack: Vec<Frame>,
    due: Vec<NodeId>,
    next_due: usize,
    due_sink: Sink,
    at: usize,
    stage: u8,
    s: Ghost<Sched>,
    steps: Ghost<nat>,
}

fn empty_lists(count: usize) -> (r: Vec<Vec<NodeId>>)
    ensures
        r@.len() == count,
        forall|i: int| 0 <= i < count ==> (#[trigger] r@[i])@ == Seq::<NodeId>::empty(),
{
    let mut r: Vec<Vec<NodeId>> = Vec::new();
    let mut i: usize = 0;
    while i < count
        invariant
            i <= count,
            r@.len() == i,
            forall|k: int| 0 <= k < i ==> (#[trigger] r@[k])@ == Seq::<NodeId>::empty(),
        decreases count - i,
    {
        r.push(Vec::new());
        i += 1;
    }
    r
}

fn append_nodes(out: &mut Vec<NodeId>, more: &Vec<NodeId>)
    ensures
        final(out)@ == old(out)@ + more@,
{
    let ghost start = out@;
    let mut i: usize = 0;
    while i < more.len()
        invariant
            i <= more.len(),
            out@ == start + more@.take(i as int),
        decreases more.len() - i,
    {
        out.push(more[i]);
        i += 1;
        assert(out@ =~= start + more@.take(i as int));
    }
    assert(more@.take(i as int) =~= more@);
}

impl<'a> Orderer<'a> {
    pub closed spec fn graph(self) -> GraphModel {
        self.f.g()
    }

    pub closed spec fn function(self) -> Function {
        *self.f
    }

    /// What does not change while the scheduler runs.
    closed spec fn settled(self) -> bool {
        let g = self.f.g();
        let entry = self.f.entry_node();
        &&& self.f.wf()
        &&& g.valid()
        &&& self.rpo@ == cfg_rpo(g, entry)
        &&& self.rpo@.no_duplicates()
        &&& self.rpo@.contains(entry)
        &&& forall|i: int| 0 <= i < self.rpo@.len() ==> known(g, entry, #[trigger] self.rpo@[i])
        &&& forall|n: NodeId| #[trigger] self.in_cfg@.contains(n) <==> self.rpo@.contains(n)
        &&& self.blocks@.len() == g.nodes.len()
        &&& self.waiting@.len() == g.nodes.len()
        &&& self.blocks@.len() <= u32::MAX
    }

    /// The lists hold what the state says.
    closed spec fn holds(self) -> bool {
        let g = self.f.g();
        let s = self.s@;
        &&& forall|n: NodeId| #[trigger] self.visited@.contains(n) <==> s.visited.contains(n)
        &&& forall|b: NodeId|
            g.has_node(b) ==> (#[trigger] self.blocks@[b.0 as int])@ == sunk(s.log, Some(b))
        &&& forall|p: NodeId|
            g.has_node(p) ==> (#[trigger] self.waiting@[p.0 as int])@ == waiting_for(s.waiting, p)
        &&& self.tail@ == sunk(s.log, None)
        &&& s.sealed ==> self.front@ == flat(s.log, self.rpo@, self.rpo@.len() as int)
        &&& self.sealed == s.sealed
        &&& self.jobs@ == s.jobs
        &&& self.next_job == s.next_job
        &&& self.sink == s.sink
        &&& self.stack@ == s.stack
        &&& self.due@ == s.due
        &&& self.next_due == s.next_due
        &&& self.due_sink == s.due_sink
        &&& self.at == s.at
        &&& self.stage == s.stage
    }

    /// The state is one that the scheduler reaches.
    closed spec fn reached(self) -> bool {
        let g = self.f.g();
        let entry = self.f.entry_node();
        &&& self.s@ == sched_after(g, self.rpo@, self.steps@)
        &&& sched_sound(g, entry, self.rpo@, self.s@)
        &&& sched_once(self.s@)
        &&& sched_closed(g, self.rpo@, self.s@)
    }

    pub closed spec fn wf(self) -> bool {
        self.settled() && self.holds() && self.reached()
    }

    /// What a step leaves alone.
    closed spec fn same_frame(self, other: Orderer<'a>) -> bool {
        &&& self.f == other.f
        &&& self.rpo@ == other.rpo@
        &&& self.in_cfg@ == other.in_cfg@
        &&& self.blocks@.len() == other.blocks@.len()
        &&& self.waiting@.len() == other.waiting@.len()
    }

    /// A scheduler that has done nothing yet.
    pub fn new(f: &'a Function) -> (r: Self)
        requires
            f.wf(),
        ensures
            r.wf(),
            r.function() == *f,
    {
        proof {
            f.lemma_wf();
        }
        let rpo = cfg_reverse_postorder(f);
        let count = f.graph().node_count();
        let mut in_cfg = NodeIdSet::new();
        let mut i: usize = 0;
        while i < rpo.len()
            invariant
                i <= rpo.len(),
                forall|n: NodeId|
                    #[trigger] in_cfg@.contains(n) <==> rpo@.take(i as int).contains(n),
            decreases rpo.len() - i,
        {
            in_cfg.insert(rpo[i]);
            proof {
                assert(rpo@.take(i + 1) =~= rpo@.take(i as int).push(rpo@[i as int]));
                assert forall|n: NodeId|
                    #[trigger] in_cfg@.contains(n) <==> rpo@.take(i + 1).contains(n) by {
                    lemma_push_member(rpo@.take(i as int), rpo@[i as int], n);
                }
            }
            i += 1;
        }
        assert(rpo@.take(i as int) =~= rpo@);
        let r = Orderer {
            f,
            rpo,
            in_cfg,
            visited: NodeIdSet::new(),
            blocks: empty_lists(count),
            waiting: empty_lists(count),
            tail: Vec::new(),
            front: Vec::new(),
            sealed: false,
            jobs: Vec::new(),
            next_job: 0,
            sink: None,
            stack: Vec::new(),
            due: Vec::new(),
            next_due: 0,
            due_sink: None,
            at: 0,
            stage: 0,
            s: Ghost(sched_start()),
            steps: Ghost(0),
        };
        proof {
            assert(r.jobs@ =~= r.s@.jobs);
            assert(r.stack@ =~= r.s@.stack);
            assert(r.due@ =~= r.s@.due);
            assert(r.tail@ =~= sunk(r.s@.log, None));
        }
        r
    }

    /// The state after one more step is reached too.
    proof fn lemma_reached_step(self)
        requires
            self.wf(),
        ensures
            ({
                let g = self.f.g();
                let entry = self.f.entry_node();
                let t = step(g, self.rpo@, self.s@);
                &&& t == sched_after(g, self.rpo@, self.steps@ + 1)
                &&& sched_sound(g, entry, self.rpo@, t)
                &&& sched_once(t)
                &&& sched_closed(g, self.rpo@, t)
            }),
    {
        let g = self.f.g();
        let entry = self.f.entry_node();
        lemma_step_sound(g, entry, self.rpo@, self.s@);
        lemma_step_once(g, self.rpo@, self.s@);
        lemma_step_closed(g, entry, self.rpo@, self.s@);
    }

    /// Hands the inputs of a phi out: one that arrives over an edge from a
    /// control node goes to the block of that node, now if it has printed and
    /// else once it does; any other input prints here.
    fn defer_phi_inputs(&mut self, phi: NodeId)
        requires
            old(self).settled(),
            old(self).f.g().has_node(phi),
            forall|n: NodeId|
                #[trigger] old(self).visited@.contains(n) <==> old(self).s@.visited.contains(n),
            forall|p: NodeId|
                old(self).f.g().has_node(p) ==> (#[trigger] old(self).waiting@[p.0 as int])@
                    == waiting_for(old(self).s@.waiting, p),
            old(self).jobs@ == old(self).s@.jobs,
            old(self).sealed == old(self).s@.sealed,
        ensures
            final(self).same_frame(*old(self)),
            final(self).settled(),
            final(self).visited@ == old(self).visited@,
            final(self).blocks@ == old(self).blocks@,
            final(self).tail@ == old(self).tail@,
            final(self).front@ == old(self).front@,
            final(self).sealed == old(self).sealed,
            final(self).next_job == old(self).next_job,
            final(self).sink == old(self).sink,
            final(self).due@ == old(self).due@,
            final(self).next_due == old(self).next_due,
            final(self).due_sink == old(self).due_sink,
            final(self).at == old(self).at,
            final(self).stage == old(self).stage,
            final(self).s == old(self).s,
            final(self).steps == old(self).steps,
            ({
                let g = old(self).f.g();
                let d = deferred(
                    g,
                    old(self).rpo@,
                    old(self).s@,
                    phi,
                    g.ins(phi).len() as int,
                );
                &&& final(self).jobs@ == d.jobs
                &&& final(self).stack@ == old(self).stack@ + entering(d.here)
                &&& forall|p: NodeId|
                    g.has_node(p) ==> (#[trigger] final(self).waiting@[p.0 as int])@
                        == waiting_for(d.waiting, p)
            }),
    {
        let f = self.f;
        let ghost start = *self;
        let ghost g = f.g();
        let ghost s = self.s@;
        let ghost rpo = self.rpo@;
        let region = phi_region(f, phi);
        let count = f.node_inputs(phi).len();
        let mut here: Vec<NodeId> = Vec::new();
        let mut slot: usize = 0;
        while slot < count
            invariant
                count == g.ins(phi).len(),
                slot <= count,
                f == self.f,
                g == f.g(),
                g.has_node(phi),
                s == self.s@,
                rpo == self.rpo@,
                region == region_of(g, phi),
                region matches Some(n) ==> g.has_node(n),
                self.settled(),
                self.same_frame(start),
                forall|n: NodeId| #[trigger] self.visited@.contains(n) <==> s.visited.contains(n),
                self.sealed == s.sealed,
                self.jobs@ == deferred(g, rpo, s, phi, slot as int).jobs,
                here@ == deferred(g, rpo, s, phi, slot as int).here,
                forall|p: NodeId|
                    g.has_node(p) ==> (#[trigger] self.waiting@[p.0 as int])@ == waiting_for(
                        deferred(g, rpo, s, phi, slot as int).waiting,
                        p,
                    ),
                forall|i: int| 0 <= i < here@.len() ==> g.has_node(#[trigger] here@[i]),
                self.visited@ == start.visited@,
                self.blocks@ == start.blocks@,
                self.tail@ == start.tail@,
                self.front@ == start.front@,
                self.sealed == start.sealed,
                self.next_job == start.next_job,
                self.sink == start.sink,
                self.stack@ == start.stack@,
                self.due@ == start.due@,
                self.next_due == start.next_due,
                self.due_sink == start.due_sink,
                self.at == start.at,
                self.stage == start.stage,
                self.s == start.s,
                self.steps == start.steps,
            decreases count - slot,
        {
            let ghost d = deferred(g, rpo, s, phi, slot as int);
            let ghost w0 = self.waiting@;
            proof {
                crate::graph::walk::lemma_feeds_node(g, phi, slot as int);
            }
            let producer = f.producer(f.node_inputs(phi).at(slot));
            if !(self.visited.contains(producer) || self.in_cfg.contains(producer)) {
                let pred: Option<NodeId> = match region {
                    Some(r) => if slot >= 1 {
                        match f.nth_input(r, slot - 1) {
                            Some(ctrl) => Some(f.producer(ctrl)),
                            None => None,
                        }
                    } else {
                        None
                    },
                    None => None,
                };
                assert(pred == edge_source(g, phi, slot as int));
                match pred {
                    Some(p) => if self.in_cfg.contains(p) && !self.sealed {
                        if self.visited.contains(p) {
                            self.jobs.push((producer, Some(p)));
                        } else {
                            proof {
                                let x = rpo.index_of(p);
                                assert(known(g, f.entry_node(), rpo[x]));
                            }
                            self.waiting[p.0 as usize].push(producer);
                            proof {
                                let next = d.waiting.push((p, producer));
                                assert(next.drop_last() =~= d.waiting);
                                assert forall|q: NodeId| g.has_node(q) implies (
                                #[trigger] self.waiting@[q.0 as int])@ == waiting_for(next, q) by {
                                    if q.0 == p.0 {
                                        assert(q == p);
                                        assert(w0[p.0 as int]@ == waiting_for(d.waiting, p));
                                    } else {
                                        assert(self.waiting@[q.0 as int] == w0[q.0 as int]);
                                    }
                                }
                            }
                        }
                    } else {
                        here.push(producer);
                    },
                    None => {
                        here.push(producer);
                    },
                }
            }
            slot += 1;
        }
        let ghost base = self.stack@;
        let mut k: usize = here.len();
        while k > 0
            invariant
                k <= here@.len(),
                self.settled(),
                self.same_frame(start),
                self.stack@ == base + entering(here@).take(here@.len() - k),
                self.jobs@ == deferred(g, rpo, s, phi, count as int).jobs,
                forall|p: NodeId|
                    g.has_node(p) ==> (#[trigger] self.waiting@[p.0 as int])@ == waiting_for(
                        deferred(g, rpo, s, phi, count as int).waiting,
                        p,
                    ),
                self.visited@ == start.visited@,
                self.blocks@ == start.blocks@,
                self.tail@ == start.tail@,
                self.front@ == start.front@,
                self.sealed == start.sealed,
                self.next_job == start.next_job,
                self.sink == start.sink,
                self.due@ == start.due@,
                self.next_due == start.next_due,
                self.due_sink == start.due_sink,
                self.at == start.at,
                self.stage == start.stage,
                self.s == start.s,
                self.steps == start.steps,
            decreases k,
        {
            k -= 1;
            self.stack.push(Frame::Enter(here[k]));
            assert(self.stack@ =~= base + entering(here@).take(here@.len() - k));
        }
        assert(entering(here@).take(here@.len() as int) =~= entering(here@));
    }

    /// Puts a node where the job at hand puts its nodes.
    fn place(&mut self, node: NodeId)
        requires
            old(self).wf(),
            old(self).s@.stack.len() > 0,
        ensures
            ({
                let log = old(self).s@.log.push((node, old(self).s@.sink));
                &&& *final(self) == (Orderer {
                    blocks: final(self).blocks,
                    tail: final(self).tail,
                    ..*old(self)
                })
                &&& final(self).blocks@.len() == old(self).blocks@.len()
                &&& forall|b: NodeId|
                    old(self).f.g().has_node(b) ==> (#[trigger] final(self).blocks@[b.0 as int])@
                        == sunk(log, Some(b))
                &&& final(self).tail@ == sunk(log, None)
            }),
    {
        let ghost b0 = self.blocks@;
        let ghost log = self.s@.log;
        let ghost g = self.f.g();
        let ghost rpo = self.rpo@;
        let ghost sink = self.sink;
        match self.sink {
            Some(block) => {
                proof {
                    assert(rpo.contains(block));
                    let x = rpo.index_of(block);
                    assert(known(g, self.f.entry_node(), rpo[x]));
                }
                self.blocks[block.0 as usize].push(node);
                proof {
                    assert forall|b: NodeId| g.has_node(b) implies (
                    #[trigger] self.blocks@[b.0 as int])@ == sunk(
                        log.push((node, sink)),
                        Some(b),
                    ) by {
                        lemma_sunk_push(log, node, sink, Some(b));
                        assert(b0[b.0 as int]@ == sunk(log, Some(b)));
                        if b.0 == block.0 {
                            assert(b == block);
                        }
                    }
                    lemma_sunk_push(log, node, sink, None);
                }
            },
            None => {
                self.tail.push(node);
                proof {
                    assert forall|b: NodeId| g.has_node(b) implies (
                    #[trigger] self.blocks@[b.0 as int])@ == sunk(
                        log.push((node, sink)),
                        Some(b),
                    ) by {
                        lemma_sunk_push(log, node, sink, Some(b));
                    }
                    lemma_sunk_push(log, node, sink, None);
                }
            },
        }
    }

    /// Works on the frame on top: prints a node after its unprinted inputs,
    /// never pulling a control node out of its own block.
    fn pull(&mut self)
        requires
            old(self).wf(),
            old(self).s@.stack.len() > 0,
        ensures
            final(self).wf(),
            final(self).same_frame(*old(self)),
            final(self).s@ == step(old(self).f.g(), old(self).rpo@, old(self).s@),
    {
        let f = self.f;
        let ghost start = *self;
        let ghost g = f.g();
        let ghost entry = f.entry_node();
        let ghost s = self.s@;
        let ghost rpo = self.rpo@;
        let ghost t = step(g, rpo, s);
        proof {
            self.lemma_reached_step();
            assert(known(g, entry, super::order::frame_node(s.stack[s.stack.len() - 1])));
        }
        let top = self.stack.len() - 1;
        let frame = self.stack[top];
        match frame {
            Frame::Enter(node) => {
                self.stack.pop();
                if self.visited.insert(node) {
                    self.stack.push(Frame::Resume(node, 0));
                }
                proof {
                    assert forall|n: NodeId|
                        #[trigger] self.visited@.contains(n) <==> t.visited.contains(n) by {
                        lemma_push_member(s.visited, node, n);
                    }
                    self.s = Ghost(t);
                    self.steps = Ghost(start.steps@ + 1);
                }
                assert(self.stack@ =~= t.stack);
            },
            Frame::Resume(node, slot) => {
                let phi = is_phi(f.node_kind(node));
                let value = f.nth_input(node, slot);
                if !phi && value.is_some() {
                    proof {
                        crate::graph::walk::lemma_feeds_node(g, node, slot as int);
                    }
                    let producer = f.producer(value.unwrap());
                    self.stack.pop();
                    self.stack.push(Frame::Resume(node, slot + 1));
                    if !self.in_cfg.contains(producer) {
                        self.stack.push(Frame::Enter(producer));
                    }
                    proof {
                        self.s = Ghost(t);
                        self.steps = Ghost(start.steps@ + 1);
                    }
                    assert(self.stack@ =~= t.stack);
                } else {
                    self.place(node);
                    self.stack.pop();
                    if phi {
                        self.defer_phi_inputs(node);
                    }
                    proof {
                        if s.sealed {
                            lemma_flat_tail(s.log, rpo, node, rpo.len() as int);
                        }
                        self.s = Ghost(t);
                        self.steps = Ghost(start.steps@ + 1);
                    }
                    assert(self.stack@ =~= t.stack);
                }
            },
        }
    }

    /// Goes on when nothing is left to pull.
    fn advance(&mut self)
        requires
            old(self).wf(),
            old(self).s@.stack.len() == 0,
            old(self).s@.next_job >= old(self).s@.jobs.len(),
            old(self).s@.next_due >= old(self).s@.due.len(),
            !done(old(self).rpo@, old(self).s@),
        ensures
            final(self).wf(),
            final(self).same_frame(*old(self)),
            final(self).s@ == step(old(self).f.g(), old(self).rpo@, old(self).s@),
    {
        let f = self.f;
        let ghost start = *self;
        let ghost g = f.g();
        let ghost entry = f.entry_node();
        let ghost s = self.s@;
        let ghost rpo = self.rpo@;
        let ghost t = step(g, rpo, s);
        proof {
            self.lemma_reached_step();
        }
        if !self.sealed {
            if self.at >= self.rpo.len() {
                let mut front: Vec<NodeId> = Vec::new();
                let mut i: usize = 0;
                while i < self.rpo.len()
                    invariant
                        *self == start,
                        self.wf(),
                        g == self.f.g(),
                        entry == self.f.entry_node(),
                        s == self.s@,
                        rpo == self.rpo@,
                        i <= rpo.len(),
                        front@ == flat(s.log, rpo, i as int),
                    decreases rpo.len() - i,
                {
                    assert(known(g, entry, rpo[i as int]));
                    let block = self.rpo[i].0 as usize;
                    append_nodes(&mut front, &self.blocks[block]);
                    i += 1;
                }
                self.front = front;
                self.sealed = true;
                self.at = 0;
                self.stage = 0;
            } else {
                let node = self.rpo[self.at];
                assert(known(g, entry, rpo[s.at as int]));
                if self.stage == 0 {
                    let mut due: Vec<NodeId> = Vec::new();
                    due.push(node);
                    self.due = due;
                    self.next_due = 0;
                    self.due_sink = Some(node);
                    self.stage = 1;
                } else if self.stage == 1 {
                    let mut due: Vec<NodeId> = Vec::new();
                    append_nodes(&mut due, &self.waiting[node.0 as usize]);
                    self.due = due;
                    self.next_due = 0;
                    self.due_sink = Some(node);
                    self.stage = 2;
                } else {
                    self.at = self.at + 1;
                    self.stage = 0;
                }
            }
        } else if self.stage == 0 {
            let node = if self.at < self.front.len() {
                self.front[self.at]
            } else {
                self.tail[self.at - self.front.len()]
            };
            proof {
                let order = order_of(s.log, rpo);
                lemma_order(s.log, rpo);
                assert(node == order[s.at as int]);
                assert(order.contains(node));
                let i = choose|i: int| 0 <= i < s.log.len() && (#[trigger] s.log[i]).0 == node;
                assert(s.visited.contains(s.log[i].0));
                let x = s.visited.index_of(node);
                assert(known(g, entry, s.visited[x]));
            }
            self.due = cfg_succs_of(f, node);
            self.next_due = 0;
            self.due_sink = None;
            self.stage = 1;
        } else {
            proof {
                lemma_order(s.log, rpo);
                super::settle::lemma_log_bounded(g, entry, rpo, s);
            }
            self.at = self.at + 1;
            self.stage = 0;
        }
        proof {
            self.s = Ghost(t);
            self.steps = Ghost(start.steps@ + 1);
            assert(self.due@ =~= t.due);
        }
    }

    /// Whether nothing is left to do.
    fn is_done(&self) -> (r: bool)
        requires
            self.wf(),
        ensures
            r == done(self.rpo@, self.s@),
    {
        if self.stack.len() == 0 && self.next_job >= self.jobs.len() && self.next_due
            >= self.due.len() && self.sealed {
            // One list after the other holds the order so far.
            self.at >= self.front.len() && self.at - self.front.len() >= self.tail.len()
        } else {
            false
        }
    }

    /// Runs the scheduler to its end.
    pub fn run(self) -> (r: Vec<NodeId>)
        requires
            self.wf(),
        ensures
            r@ == scheduled(self.function().g(), self.function().entry_node()),
            r@.no_duplicates(),
            forall|n: NodeId|
                #[trigger] r@.contains(n) <==> self.function().g().has_node(n) && reachable(
                    self.function().g(),
                    self.function().entry_node(),
                    n,
                ),
    {
        let ghost g = self.f.g();
        let ghost entry = self.f.entry_node();
        let ghost rpo = self.rpo@;
        let mut orderer = self;
        let mut finished = orderer.is_done();
        while !finished
            invariant
                orderer.wf(),
                finished == done(rpo, orderer.s@),
                g == orderer.f.g(),
                entry == orderer.f.entry_node(),
                rpo == orderer.rpo@,
            decreases
                    unstarted(g, orderer.s@),
                    outer_left(g, rpo, orderer.s@),
                    inner_left(g, orderer.s@),
        {
            proof {
                orderer.lemma_reached_step();
                lemma_step_decreases(g, entry, rpo, orderer.s@);
            }
            orderer.one_step();
            finished = orderer.is_done();
        }
        proof {
            lemma_scheduled_unique(g, entry, orderer.steps@);
            lemma_done_reachable(g, entry, rpo, orderer.s@);
        }
        let mut order: Vec<NodeId> = Vec::new();
        append_nodes(&mut order, &orderer.front);
        append_nodes(&mut order, &orderer.tail);
        assert(order@ =~= order_of(orderer.s@.log, rpo));
        order
    }

    fn one_step(&mut self)
        requires
            old(self).wf(),
            !done(old(self).rpo@, old(self).s@),
        ensures
            final(self).wf(),
            final(self).same_frame(*old(self)),
            final(self).s@ == step(old(self).f.g(), old(self).rpo@, old(self).s@),
    {
        let ghost start = *self;
        let ghost s = self.s@;
        let ghost t = step(self.f.g(), self.rpo@, s);
        if self.stack.len() > 0 {
            self.pull();
        } else if self.next_job < self.jobs.len() {
            proof {
                self.lemma_reached_step();
            }
            let (node, sink) = self.jobs[self.next_job];
            let mut stack: Vec<Frame> = Vec::new();
            stack.push(Frame::Enter(node));
            self.stack = stack;
            self.sink = sink;
            self.next_job = self.next_job + 1;
            proof {
                self.s = Ghost(t);
                self.steps = Ghost(start.steps@ + 1);
                assert(self.stack@ =~= t.stack);
            }
        } else if self.next_due < self.due.len() {
            proof {
                self.lemma_reached_step();
            }
            let mut jobs: Vec<(NodeId, Sink)> = Vec::new();
            jobs.push((self.due[self.next_due], self.due_sink));
            self.jobs = jobs;
            self.next_job = 0;
            self.next_due = self.next_due + 1;
            proof {
                self.s = Ghost(t);
                self.steps = Ghost(start.steps@ + 1);
                assert(self.jobs@ =~= t.jobs);
            }
        } else {
            self.advance();
        }
    }
}

// -- phis next to their regions ----------------------------------------------------
/// A phi prints right after its region.
pub open spec fn belongs(g: GraphModel, phi: NodeId, region: NodeId) -> bool {
    phi_kind(g.kind(phi)) && region_of(g, phi) == Some(region)
}

/// A node that moves: a phi whose region prints.
pub open spec fn moves(g: GraphModel, seq: Seq<NodeId>, n: NodeId) -> bool {
    phi_kind(g.kind(n)) && (region_of(g, n) matches Some(r) && seq.contains(r))
}

/// The phis of a region, in order.
pub open spec fn phis_of(g: GraphModel, seq: Seq<NodeId>, region: NodeId) -> Seq<NodeId>
    decreases seq.len(),
{
    if seq.len() == 0 {
        Seq::empty()
    } else if belongs(g, seq.last(), region) {
        phis_of(g, seq.drop_last(), region).push(seq.last())
    } else {
        phis_of(g, seq.drop_last(), region)
    }
}

/// The first `k` nodes with every phi moved to just after its region.
pub open spec fn attached_upto(g: GraphModel, seq: Seq<NodeId>, k: int) -> Seq<NodeId>
    decreases k,
{
    if k <= 0 {
        Seq::empty()
    } else if moves(g, seq, seq[k - 1]) {
        attached_upto(g, seq, k - 1)
    } else {
        attached_upto(g, seq, k - 1).push(seq[k - 1]) + phis_of(g, seq, seq[k - 1])
    }
}

/// A sequence with every phi moved to just after its region.
pub open spec fn attached(g: GraphModel, seq: Seq<NodeId>) -> Seq<NodeId> {
    attached_upto(g, seq, seq.len() as int)
}

/// The node whose place decides where `n` prints.
spec fn host(g: GraphModel, seq: Seq<NodeId>, n: NodeId) -> NodeId {
    if moves(g, seq, n) {
        region_of(g, n)->0
    } else {
        n
    }
}

proof fn lemma_phis_of(g: GraphModel, seq: Seq<NodeId>, region: NodeId)
    requires
        seq.no_duplicates(),
    ensures
        phis_of(g, seq, region).no_duplicates(),
        forall|n: NodeId|
            #[trigger] phis_of(g, seq, region).contains(n) <==> seq.contains(n) && belongs(
                g,
                n,
                region,
            ),
    decreases seq.len(),
{
    if seq.len() > 0 {
        let rest = seq.drop_last();
        let sub = phis_of(g, rest, region);
        let all = phis_of(g, seq, region);
        assert forall|i: int, j: int| 0 <= i < rest.len() && 0 <= j < rest.len() && i != j implies rest[i] != rest[j] by {
            assert(seq[i] != seq[j]);
        }
        lemma_phis_of(g, rest, region);
        assert(seq =~= rest.push(seq.last()));
        assert(!rest.contains(seq.last())) by {
            if rest.contains(seq.last()) {
                let x = rest.index_of(seq.last());
                assert(seq[x] == seq[seq.len() - 1]);
            }
        }
        assert forall|n: NodeId| #[trigger] all.contains(n) <==> seq.contains(n) && belongs(g, n, region) by {
            lemma_push_member(rest, seq.last(), n);
            lemma_push_member(sub, seq.last(), n);
        }
        assert forall|i: int, j: int| 0 <= i < all.len() && 0 <= j < all.len() && i != j implies all[i] != all[j] by {
            if i >= sub.len() {
                assert(sub.contains(sub[j]));
            } else if j >= sub.len() {
                assert(sub.contains(sub[i]));
            }
        }
    }
}

proof fn lemma_attached_upto(g: GraphModel, seq: Seq<NodeId>, k: int)
    requires
        seq.no_duplicates(),
        0 <= k <= seq.len(),
    ensures
        attached_upto(g, seq, k).no_duplicates(),
        forall|n: NodeId|
            #[trigger] attached_upto(g, seq, k).contains(n) <==> seq.contains(n) && seq.take(
                k,
            ).contains(host(g, seq, n)),
    decreases k,
{
    if k > 0 {
        let sub = attached_upto(g, seq, k - 1);
        let all = attached_upto(g, seq, k);
        let last = seq[k - 1];
        lemma_attached_upto(g, seq, k - 1);
        assert(seq.take(k) =~= seq.take(k - 1).push(last));
        assert(!seq.take(k - 1).contains(last)) by {
            if seq.take(k - 1).contains(last) {
                let x = seq.take(k - 1).index_of(last);
                assert(seq[x] == seq[k - 1]);
            }
        }
        assert(seq.contains(last));
        let phis = phis_of(g, seq, last);
        lemma_phis_of(g, seq, last);
        assert forall|n: NodeId| #[trigger] all.contains(n) <==> seq.contains(n) && seq.take(k).contains(host(g, seq, n)) by {
            lemma_push_member(seq.take(k - 1), last, host(g, seq, n));
            assert(sub.contains(n) <==> seq.contains(n) && seq.take(k - 1).contains(host(g, seq, n)));
            if !moves(g, seq, last) {
                lemma_push_member(sub, last, n);
                lemma_concat_member(sub.push(last), phis, n);
                assert(phis.contains(n) <==> seq.contains(n) && belongs(g, n, last));
            } else if host(g, seq, n) == last {
                // A node that moves is a phi, and hosts are not.
                assert(moves(g, seq, n) ==> g.kind(last) is Region);
            }
        }
        if !moves(g, seq, last) {
            assert forall|i: int, j: int| 0 <= i < all.len() && 0 <= j < all.len() && i != j implies all[i] != all[j] by {
                if i < j {
                    lemma_attached_distinct(g, seq, k, i, j);
                } else {
                    lemma_attached_distinct(g, seq, k, j, i);
                }
            }
        }
    }
}

proof fn lemma_concat_member<T>(a: Seq<T>, b: Seq<T>, x: T)
    ensures
        (a + b).contains(x) <==> a.contains(x) || b.contains(x),
{
    if (a + b).contains(x) {
        let i = (a + b).index_of(x);
        if i < a.len() {
            assert(a[i] == x);
        } else {
            assert(b[i - a.len()] == x);
        }
    }
    if a.contains(x) {
        let i = a.index_of(x);
        assert((a + b)[i] == x);
    }
    if b.contains(x) {
        let i = b.index_of(x);
        assert((a + b)[a.len() + i] == x);
    }
}

proof fn lemma_attached_distinct(g: GraphModel, seq: Seq<NodeId>, k: int, i: int, j: int)
    requires
        seq.no_duplicates(),
        0 < k <= seq.len(),
        !moves(g, seq, seq[k - 1]),
        attached_upto(g, seq, k - 1).no_duplicates(),
        forall|n: NodeId|
            #[trigger] attached_upto(g, seq, k - 1).contains(n) <==> seq.contains(n) && seq.take(
                k - 1,
            ).contains(host(g, seq, n)),
        0 <= i < j < attached_upto(g, seq, k).len(),
    ensures
        attached_upto(g, seq, k)[i] != attached_upto(g, seq, k)[j],
{
    let sub = attached_upto(g, seq, k - 1);
    let all = attached_upto(g, seq, k);
    let last = seq[k - 1];
    let phis = phis_of(g, seq, last);
    lemma_phis_of(g, seq, last);
    assert(!seq.take(k - 1).contains(last)) by {
        if seq.take(k - 1).contains(last) {
            let x = seq.take(k - 1).index_of(last);
            assert(seq[x] == seq[k - 1]);
        }
    }
    assert(seq.contains(last));
    if i < sub.len() {
        assert(all[i] == sub[i]);
        assert(sub.contains(sub[i]));
        if j < sub.len() {
            assert(all[j] == sub[j]);
        } else if j > sub.len() {
            assert(all[j] == phis[j - sub.len() - 1]);
            assert(phis.contains(all[j]));
            assert(belongs(g, all[j], last));
            assert(host(g, seq, all[j]) == last);
        }
    } else if i == sub.len() {
        assert(all[j] == phis[j - sub.len() - 1]);
        assert(phis.contains(all[j]));
        assert(moves(g, seq, all[j]));
    } else {
        assert(all[i] == phis[i - sub.len() - 1]);
        assert(all[j] == phis[j - sub.len() - 1]);
    }
}

/// Moving the phis keeps the nodes.
pub proof fn lemma_attached(g: GraphModel, seq: Seq<NodeId>)
    requires
        seq.no_duplicates(),
    ensures
        attached(g, seq).no_duplicates(),
        forall|n: NodeId| #[trigger] attached(g, seq).contains(n) <==> seq.contains(n),
{
    lemma_attached_upto(g, seq, seq.len() as int);
    assert(seq.take(seq.len() as int) =~= seq);
}

/// Moves each phi to just after its region, keeping sibling order.
pub fn attach_phis(f: &Function, seq: Vec<NodeId>) -> (r: Vec<NodeId>)
    requires
        f.wf(),
        seq@.no_duplicates(),
        forall|i: int| 0 <= i < seq@.len() ==> f.g().has_node(#[trigger] seq@[i]),
    ensures
        r@ == attached(f.g(), seq@),
{
    let ghost g = f.g();
    proof {
        f.lemma_wf();
    }
    let count = f.graph().node_count();
    let mut printed = NodeIdSet::new();
    let mut i: usize = 0;
    while i < seq.len()
        invariant
            i <= seq.len(),
            forall|n: NodeId| #[trigger] printed@.contains(n) <==> seq@.take(i as int).contains(n),
        decreases seq.len() - i,
    {
        printed.insert(seq[i]);
        proof {
            assert(seq@.take(i + 1) =~= seq@.take(i as int).push(seq@[i as int]));
            assert forall|n: NodeId| #[trigger] printed@.contains(n) <==> seq@.take(i + 1).contains(n) by {
                lemma_push_member(seq@.take(i as int), seq@[i as int], n);
            }
        }
        i += 1;
    }
    assert(seq@.take(i as int) =~= seq@);
    let mut attached_to = empty_lists(count);
    let mut moved: Vec<bool> = Vec::new();
    let mut j: usize = 0;
    while j < seq.len()
        invariant
            f.wf(),
            g == f.g(),
            j <= seq.len(),
            forall|k: int| 0 <= k < seq@.len() ==> g.has_node(#[trigger] seq@[k]),
            forall|n: NodeId| #[trigger] printed@.contains(n) <==> seq@.contains(n),
            attached_to@.len() == g.nodes.len(),
            g.nodes.len() <= u32::MAX,
            forall|r: NodeId|
                g.has_node(r) && seq@.contains(r) ==> (#[trigger] attached_to@[r.0 as int])@
                    == phis_of(g, seq@.take(j as int), r),
            moved@.len() == j,
            forall|k: int| 0 <= k < j ==> #[trigger] moved@[k] == moves(g, seq@, seq@[k]),
        decreases seq.len() - j,
    {
        let node = seq[j];
        let ghost before = attached_to@;
        assert(seq@.take(j + 1).drop_last() =~= seq@.take(j as int));
        assert(seq@.take(j + 1).last() == node);
        let mut moves_away = false;
        if is_phi(f.node_kind(node)) {
            if let Some(region) = phi_region(f, node) {
                if printed.contains(region) {
                    attached_to[region.0 as usize].push(node);
                    moves_away = true;
                    proof {
                        assert forall|r: NodeId| g.has_node(r) && seq@.contains(r) implies (
                        #[trigger] attached_to@[r.0 as int])@ == phis_of(g, seq@.take(j + 1), r) by {
                            assert(before[r.0 as int]@ == phis_of(g, seq@.take(j as int), r));
                            if r.0 == region.0 {
                                assert(r == region);
                            }
                        }
                    }
                }
            }
        }
        moved.push(moves_away);
        j += 1;
    }
    assert(seq@.take(j as int) =~= seq@);
    let mut out: Vec<NodeId> = Vec::new();
    let mut k: usize = 0;
    while k < seq.len()
        invariant
            k <= seq.len(),
            forall|x: int| 0 <= x < seq@.len() ==> g.has_node(#[trigger] seq@[x]),
            attached_to@.len() == g.nodes.len(),
            g.nodes.len() <= u32::MAX,
            forall|r: NodeId|
                g.has_node(r) && seq@.contains(r) ==> (#[trigger] attached_to@[r.0 as int])@
                    == phis_of(g, seq@, r),
            moved@.len() == seq@.len(),
            forall|x: int| 0 <= x < seq@.len() ==> #[trigger] moved@[x] == moves(g, seq@, seq@[x]),
            out@ == attached_upto(g, seq@, k as int),
        decreases seq.len() - k,
    {
        if !moved[k] {
            let node = seq[k];
            assert(seq@.contains(node));
            out.push(node);
            append_nodes(&mut out, &attached_to[node.0 as usize]);
        }
        k += 1;
    }
    out
}

/// The order in which the nodes of a function print.
pub open spec fn print_order(g: GraphModel, entry: NodeId) -> Seq<NodeId> {
    attached(g, scheduled(g, entry))
}

impl Function {
    /// The canonical text form.
    pub open spec fn text(&self, fingerprints: bool) -> Seq<char> {
        function_text(self, print_order(self.g(), self.entry_node()), fingerprints)
    }

    /// The nodes in print order: those that can be reached, each once.
    pub fn print_order(&self) -> (r: Vec<NodeId>)
        requires
            self.wf(),
        ensures
            r@ == print_order(self.g(), self.entry_node()),
            r@.no_duplicates(),
            forall|n: NodeId|
                #[trigger] r@.contains(n) <==> self.g().has_node(n) && reachable(
                    self.g(),
                    self.entry_node(),
                    n,
                ),
    {
        let order = Orderer::new(self).run();
        proof {
            assert forall|i: int| 0 <= i < order@.len() implies self.g().has_node(
                #[trigger] order@[i],
            ) by {
                assert(order@.contains(order@[i]));
            }
            lemma_attached(self.g(), order@);
        }
        attach_phis(self, order)
    }

    /// The canonical text form: a header (endianness, tracked varnodes, default
    /// convention, argument carriers), then one line per node reachable from
    /// the entry as `outs = op[payload] ins`, values named `%vN` in print
    /// order. With `fingerprints`, each line ends in its sorted set of
    /// addresses `  @{..}`.
    pub fn to_text(&self, fingerprints: bool) -> (r: String)
        requires
            self.wf(),
        ensures
            r@ == self.text(fingerprints),
    {
        let order = self.print_order();
        proof {
            assert forall|i: int| 0 <= i < order@.len() implies self.g().has_node(
                #[trigger] order@[i],
            ) by {
                assert(order@.contains(order@[i]));
            }
        }
        render(self, order.as_slice(), fingerprints)
    }
}

} // verus!
