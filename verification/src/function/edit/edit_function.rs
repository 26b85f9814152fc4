//! Every change of a function under edit goes through one of the verbs below,
//! which keep the cached sets of live and root nodes right without a new walk.

use super::model::{cone, contributed, is_dead, is_revival, revives, Edit, Marks};
use crate::entity_set::{lemma_distinct_bounded, NodeIdSet};
use crate::function::func::Function;
use crate::function::side_tables::Table;
use crate::entity_set::lemma_push_member;
use crate::graph::walk::lemma_feeds_node;
use crate::graph::model::GraphModel;
use crate::graph::walk::{feeds, reachable};
use crate::graph::Graph;
use crate::node::{NodeId, NodeKind, UseId, ValueId, ValueKind};
use vstd::prelude::*;

verus! {

/// What an edit keeps in mind for as long as it lasts.
pub struct FunctionState {
    /// Reachable from the entry, and not killed.
    live_nodes: NodeIdSet,
    /// Live nodes without inputs.
    roots: NodeIdSet,
    /// Nodes that may be dead or have a twin, each once.
    queue: Vec<NodeId>,
    enqueued: NodeIdSet,
    killed: NodeIdSet,
    recanon: NodeIdSet,
}

impl FunctionState {
    pub closed spec fn marks(&self) -> Marks {
        Marks {
            live: self.live_nodes@,
            roots: self.roots@,
            pending: self.enqueued@,
            killed: self.killed@,
            recanon: self.recanon@,
        }
    }

    /// The queue holds the waiting nodes, each once.
    pub closed spec fn wf(&self) -> bool {
        &&& self.queue@.no_duplicates()
        &&& forall|n: NodeId| #[trigger] self.queue@.contains(n) <==> self.enqueued@.contains(n)
    }

    /// How many nodes wait.
    pub closed spec fn waiting(&self) -> nat {
        self.queue@.len()
    }

    /// The live nodes and roots of a function: what can be reached from the
    /// entry, and what of it has no inputs. Nothing waits.
    pub fn populate(function: &Function) -> (r: Self)
        requires
            function.wf(),
        ensures
            r.wf(),
            r.marks() == populated(function),
    {
        proof {
            function.lemma_wf();
        }
        let nodes = function.walk();
        let mut live_nodes = NodeIdSet::new();
        let mut roots = NodeIdSet::new();
        let mut i: usize = 0;
        while i < nodes.len()
            invariant
                function.wf(),
                i <= nodes.len(),
                forall|k: int| 0 <= k < nodes@.len() ==> function.g().has_node(#[trigger] nodes@[k]),
                forall|n: NodeId| #[trigger]
                    live_nodes@.contains(n) <==> nodes@.take(i as int).contains(n),
                forall|n: NodeId| #[trigger]
                    roots@.contains(n) <==> nodes@.take(i as int).contains(n) && function.g().ins(
                        n,
                    ).len() == 0,
            decreases nodes.len() - i,
        {
            let node = nodes[i];
            live_nodes.insert(node);
            if function.node_inputs(node).is_empty() {
                roots.insert(node);
            }
            proof {
                assert(nodes@.take(i + 1) =~= nodes@.take(i as int).push(node));
                assert forall|n: NodeId| #[trigger]
                    live_nodes@.contains(n) <==> nodes@.take(i + 1).contains(n) by {
                    lemma_push_member(nodes@.take(i as int), node, n);
                }
                assert forall|n: NodeId| #[trigger]
                    roots@.contains(n) <==> nodes@.take(i + 1).contains(n) && function.g().ins(
                        n,
                    ).len() == 0 by {
                    lemma_push_member(nodes@.take(i as int), node, n);
                }
            }
            i += 1;
        }
        assert(nodes@.take(i as int) =~= nodes@);
        let r = FunctionState {
            live_nodes,
            roots,
            queue: Vec::new(),
            enqueued: NodeIdSet::new(),
            killed: NodeIdSet::new(),
            recanon: NodeIdSet::new(),
        };
        proof {
            assert(r.marks() =~= populated(function));
        }
        r
    }

    /// Whether a node is live.
    pub fn is_live(&self, node: NodeId) -> (r: bool)
        ensures
            r == self.marks().live.contains(node),
    {
        self.live_nodes.contains(node)
    }

    /// Whether a node is a root.
    pub fn is_root(&self, node: NodeId) -> (r: bool)
        ensures
            r == self.marks().roots.contains(node),
    {
        self.roots.contains(node)
    }

    /// How many nodes wait to be looked at.
    pub fn queue_len(&self) -> (r: usize)
        ensures
            r == self.waiting(),
    {
        self.queue.len()
    }

    fn enqueue(&mut self, node: NodeId)
        requires
            old(self).wf(),
        ensures
            final(self).wf(),
            final(self).marks() == old(self).marks().enqueued(node),
            final(self).waiting() <= old(self).waiting() + 1,
    {
        if self.live_nodes.contains(node) {
            if self.enqueued.insert(node) {
                let ghost before = self.queue@;
                self.queue.push(node);
                proof {
                    assert forall|n: NodeId| #[trigger]
                        self.queue@.contains(n) <==> self.enqueued@.contains(n) by {
                        lemma_push_member(before, node, n);
                    }
                    assert forall|i: int, j: int|
                        0 <= i < self.queue@.len() && 0 <= j < self.queue@.len() && i
                            != j implies self.queue@[i] != self.queue@[j] by {
                        if i == before.len() {
                            assert(before.contains(before[j]));
                        } else if j == before.len() {
                            assert(before.contains(before[i]));
                        }
                    }
                }
            } else {
                proof {
                    assert(self.enqueued@ =~= old(self).enqueued@);
                }
            }
        }
    }

    fn flag_killed(&mut self, node: NodeId)
        requires
            old(self).wf(),
        ensures
            final(self).wf(),
            final(self).marks() == (Marks {
                killed: old(self).marks().killed.insert(node),
                ..old(self).marks()
            }).enqueued(node),
            final(self).waiting() <= old(self).waiting() + 1,
    {
        self.killed.insert(node);
        self.enqueue(node);
    }

    fn flag_recanon(&mut self, node: NodeId)
        requires
            old(self).wf(),
        ensures
            final(self).wf(),
            final(self).marks() == old(self).marks().flag_recanon(node),
    {
        if self.live_nodes.contains(node) {
            self.recanon.insert(node);
            self.enqueue(node);
        }
    }

    /// Takes a waiting node.
    fn dequeue(&mut self) -> (r: Option<NodeId>)
        requires
            old(self).wf(),
        ensures
            final(self).wf(),
            match r {
                Some(n) => {
                    &&& old(self).marks().pending.contains(n)
                    &&& final(self).marks() == (Marks {
                        pending: old(self).marks().pending.remove(n),
                        ..old(self).marks()
                    })
                    &&& final(self).waiting() == old(self).waiting() - 1
                },
                None => {
                    &&& old(self).marks().pending =~= Set::empty()
                    &&& final(self).marks() == old(self).marks()
                },
            },
    {
        let ghost before = self.queue@;
        match self.queue.pop() {
            Some(node) => {
                self.enqueued.remove(node);
                proof {
                    let last = before.len() - 1;
                    assert(before[last] == node);
                    assert(old(self).queue@.contains(node));
                    assert(old(self).enqueued@.contains(node));
                    assert forall|n: NodeId| #[trigger]
                        self.queue@.contains(n) <==> self.enqueued@.contains(n) by {
                        if self.queue@.contains(n) {
                            let i = self.queue@.index_of(n);
                            assert(before[i] == n);
                            assert(before.contains(n));
                        }
                        if self.enqueued@.contains(n) {
                            assert(before.contains(n));
                            let i = before.index_of(n);
                            assert(self.queue@[i] == n);
                        }
                    }
                    assert forall|i: int, j: int|
                        0 <= i < self.queue@.len() && 0 <= j < self.queue@.len() && i
                            != j implies self.queue@[i] != self.queue@[j] by {
                        assert(before[i] != before[j]);
                    }
                }
                Some(node)
            },
            None => {
                proof {
                    assert forall|n: NodeId| !(#[trigger] old(self).marks().pending.contains(
                        n,
                    )) by {
                        if old(self).enqueued@.contains(n) {
                            assert(old(self).queue@.contains(n));
                        }
                    }
                }
                None
            },
        }
    }

    fn unflag_killed(&mut self, node: NodeId) -> (r: bool)
        requires
            old(self).wf(),
        ensures
            final(self).wf(),
            final(self).marks() == (Marks {
                killed: old(self).marks().killed.remove(node),
                ..old(self).marks()
            }),
            final(self).waiting() == old(self).waiting(),
            r == old(self).marks().killed.contains(node),
    {
        self.killed.remove(node)
    }

    fn unflag_recanon(&mut self, node: NodeId)
        requires
            old(self).wf(),
        ensures
            final(self).wf(),
            final(self).marks() == (Marks {
                recanon: old(self).marks().recanon.remove(node),
                ..old(self).marks()
            }),
            final(self).waiting() == old(self).waiting(),
    {
        self.recanon.remove(node);
    }

    /// Strikes a node off.
    fn mark_node_dead(&mut self, node: NodeId)
        requires
            old(self).wf(),
        ensures
            final(self).wf(),
            final(self).marks() == old(self).marks().without(node),
            final(self).waiting() == old(self).waiting(),
    {
        self.live_nodes.remove(node);
        self.roots.remove(node);
        self.killed.remove(node);
        self.recanon.remove(node);
    }
}

/// The marks of a function that was not edited yet.
pub open spec fn populated(f: &Function) -> Marks {
    Marks {
        live: Set::new(|n: NodeId| reachable(f.g(), f.entry_node(), n)),
        roots: Set::new(
            |n: NodeId| reachable(f.g(), f.entry_node(), n) && f.g().ins(n).len() == 0,
        ),
        pending: Set::empty(),
        killed: Set::empty(),
        recanon: Set::empty(),
    }
}

/// The addresses behind each node.
pub open spec fn prints_of(f: &Function) -> Map<NodeId, Set<u64>> {
    Map::new(|n: NodeId| true, |n: NodeId| f.tables().fingerprint(n).to_set())
}

/// Every set holds nodes of the graph, and roots are live.
pub open spec fn marks_ok(g: GraphModel, m: Marks) -> bool {
    &&& forall|n: NodeId| #[trigger] m.live.contains(n) ==> g.has_node(n)
    &&& forall|n: NodeId| #[trigger] m.roots.contains(n) ==> g.has_node(n) && m.live.contains(n)
    &&& forall|n: NodeId| #[trigger] m.pending.contains(n) ==> g.has_node(n)
}

/// A function under edit.
pub struct EditFunction<'g> {
    pub function: &'g mut Function,
    pub state: FunctionState,
}

impl<'g> EditFunction<'g> {
    /// The function as it is now.
    pub open spec fn f(&self) -> Function {
        *self.function
    }

    pub open spec fn marks(&self) -> Marks {
        self.state.marks()
    }

    /// How many nodes wait.
    pub open spec fn waiting(&self) -> nat {
        self.state.waiting()
    }

    /// The state of the edit.
    pub open spec fn edit(&self) -> Edit {
        Edit { g: self.f().g(), marks: self.marks(), prints: prints_of(&self.f()) }
    }

    pub open spec fn wf(&self) -> bool {
        &&& self.function.wf()
        &&& self.state.wf()
        &&& marks_ok(self.function.g(), self.state.marks())
    }

    /// What no verb changes: the entry, the payloads, and every side table but
    /// the fingerprints.
    pub open spec fn same_rest(&self, other: &EditFunction<'g>) -> bool {
        self.f().same_but_graph(&other.f())
    }

    pub(crate) proof fn lemma_same_rest_trans(a: &Self, b: &Self, c: &Self)
        requires
            a.same_rest(b),
            b.same_rest(c),
        ensures
            a.same_rest(c),
    {
        crate::function::side_tables::SideTables::lemma_same_except_trans(
            &a.f().tables(),
            &b.f().tables(),
            &c.f().tables(),
            Table::Fingerprints,
        );
    }

    pub(crate) proof fn lemma_same_rest_refl(&self)
        ensures
            self.same_rest(self),
    {
        self.f().tables().lemma_same_except_refl(Table::Fingerprints);
    }

    /// Starts an edit. Nodes that cannot be reached are not killed.
    pub fn new(function: &'g mut Function) -> (r: Self)
        requires
            old(function).wf(),
        ensures
            r.wf(),
            r.f() == *old(function),
            *final(r.function) == *final(function),
            r.marks() == populated(old(function)),
    {
        let state = FunctionState::populate(function);
        proof {
            lemma_populated_ok(function);
        }
        EditFunction { function, state }
    }

    pub fn function(&self) -> (r: &Function)
        ensures
            *r == self.f(),
    {
        self.function
    }

    pub fn graph_ref(&self) -> (r: &Graph)
        ensures
            *r == self.f().gr(),
    {
        self.function.graph()
    }

    pub fn entry(&self) -> (r: NodeId)
        ensures
            r == self.f().entry_node(),
    {
        self.function.entry()
    }

    pub fn is_live(&self, node: NodeId) -> (r: bool)
        ensures
            r == self.marks().live.contains(node),
    {
        self.state.live_nodes.contains(node)
    }

    pub fn is_root(&self, node: NodeId) -> (r: bool)
        ensures
            r == self.marks().roots.contains(node),
    {
        self.state.roots.contains(node)
    }

    /// A copy of the set of live nodes.
    pub fn live_snapshot(&self) -> (r: NodeIdSet)
        ensures
            r@ == self.marks().live,
    {
        self.state.live_nodes.duplicate()
    }

    /// A copy of the set of roots.
    pub fn roots_snapshot(&self) -> (r: NodeIdSet)
        ensures
            r@ == self.marks().roots,
    {
        self.state.roots.duplicate()
    }

    /// A live node without side effects that lost the last use of an output is
    /// looked at later.
    pub fn enqueue_killed_def_node(&mut self, def: NodeId)
        requires
            old(self).wf(),
            old(self).f().g().has_node(def),
        ensures
            final(self).wf(),
            final(self).edit() == (Edit {
                marks: old(self).marks().flag_killed(old(self).f().g(), def),
                ..old(self).edit()
            }),
            final(self).f() == old(self).f(),
            final(self).same_rest(old(self)),
            *final(final(self).function) == *final(old(self).function),
    {
        proof {
            self.lemma_same_rest_refl();
        }
        if self.function.node_kind(def).has_side_effects() {
            return ;
        }
        self.state.flag_killed(def);
    }

    /// A live node whose inputs changed is looked at later.
    pub(crate) fn enqueue_for_recanon(&mut self, node: NodeId)
        requires
            old(self).wf(),
            old(self).f().g().has_node(node),
        ensures
            final(self).wf(),
            final(self).edit() == (Edit {
                marks: old(self).marks().flag_recanon(node),
                ..old(self).edit()
            }),
            final(self).f() == old(self).f(),
            final(self).same_rest(old(self)),
            *final(final(self).function) == *final(old(self).function),
    {
        proof {
            self.lemma_same_rest_refl();
        }
        self.state.flag_recanon(node);
    }

    /// Before a use of a value goes away: if it is the last, the producer is
    /// looked at later.
    pub(crate) fn will_detach_value(&mut self, value: ValueId)
        requires
            old(self).wf(),
            old(self).f().g().has_value(value),
        ensures
            final(self).wf(),
            final(self).edit() == (Edit {
                marks: old(self).marks().detaching(old(self).f().g(), value),
                ..old(self).edit()
            }),
            final(self).f() == old(self).f(),
            final(self).same_rest(old(self)),
            *final(final(self).function) == *final(old(self).function),
    {
        proof {
            self.lemma_same_rest_refl();
            self.f().lemma_wf();
        }
        if self.function.graph().value_uses(value).len() <= 1 {
            let def = self.function.producer(value);
            self.enqueue_killed_def_node(def);
        }
    }

    /// Before a value gains a use: its producer comes back to life, with
    /// everything it depends on. Nodes that steer control do not.
    pub(crate) fn will_attach_value(&mut self, value: ValueId)
        requires
            old(self).wf(),
            old(self).f().g().has_value(value),
        ensures
            final(self).wf(),
            final(self).edit() == (Edit {
                marks: old(self).marks().attaching(old(self).f().g(), value),
                ..old(self).edit()
            }),
            final(self).f() == old(self).f(),
            final(self).same_rest(old(self)),
            *final(final(self).function) == *final(old(self).function),
    {
        let ghost f0 = self.f();
        let ghost g = f0.g();
        let ghost m0 = self.marks();
        proof {
            self.lemma_same_rest_refl();
            f0.lemma_wf();
            assert(g.value_ok(value.0 as int));
        }
        let producer = self.function.producer(value);
        let mut worklist: Vec<NodeId> = Vec::new();
        worklist.push(producer);
        let ghost mut done: Seq<NodeId> = Seq::empty();
        proof {
            assert(worklist@[0] == producer);
            assert(self.marks() =~= revived_so_far(g, m0, done));
        }
        while worklist.len() > 0
            invariant
                self.wf(),
                self.f() == f0,
                *final(self.function) == *final(old(self).function),
                f0.wf(),
                g == f0.g(),
                g.valid(),
                g.has_node(producer),
                marks_ok(g, m0),
                done.no_duplicates(),
                forall|i: int|
                    0 <= i < done.len() ==> g.has_node(#[trigger] done[i]) && revives(
                        g,
                        m0.live,
                        producer,
                        done[i],
                    ),
                self.marks() == revived_so_far(g, m0, done),
                forall|i: int|
                    0 <= i < worklist@.len() ==> g.has_node(#[trigger] worklist@[i]) && (
                    worklist@[i] == producer || fed(g, done, worklist@[i])),
                done.contains(producer) || worklist@.contains(producer) || m0.live.contains(producer)
                    || g.kind(producer).control_flow(),
                forall|n: NodeId| #[trigger]
                    fed(g, done, n) ==> done.contains(n) || worklist@.contains(n)
                        || m0.live.contains(n) || g.kind(n).control_flow(),
            decreases g.nodes.len() - done.len(), worklist@.len(),
        {
            let ghost before = worklist@;
            let node = worklist.pop().unwrap();
            proof {
                assert(before[before.len() - 1] == node);
                assert forall|n: NodeId| before.contains(n) implies n == node
                    || #[trigger] worklist@.contains(n) by {
                    let k = before.index_of(n);
                    if k < before.len() - 1 {
                        assert(worklist@[k] == n);
                    }
                }
                assert forall|i: int| 0 <= i < worklist@.len() implies g.has_node(
                    #[trigger] worklist@[i],
                ) && (worklist@[i] == producer || fed(g, done, worklist@[i])) by {
                    assert(before[i] == worklist@[i]);
                }
            }
            if !self.function.node_kind(node).has_control_flow() && !self.state.live_nodes.contains(
                node,
            ) {
                let ghost old_done = done;
                let ghost m1 = self.marks();
                proof {
                    lemma_revive_one(g, m0.live, producer, done, node);
                    done = done.push(node);
                    lemma_distinct_bounded(done, g.nodes.len());
                }
                let kind = *self.function.node_kind(node);
                let count = self.function.node_inputs(node).len();
                self.state.live_nodes.insert(node);
                if kind.is_cacheable() {
                    self.state.flag_recanon(node);
                }
                if count == 0 {
                    self.state.roots.insert(node);
                }
                proof {
                    lemma_revived_push(g, m0, old_done, node);
                    assert(self.marks() =~= revived_so_far(g, m0, done));
                    assert forall|n: NodeId| fed(g, old_done, n) implies #[trigger] fed(
                        g,
                        done,
                        n,
                    ) by {
                        let k = choose|k: int|
                            0 <= k < old_done.len() && feeds(g, #[trigger] old_done[k], n);
                        assert(done[k] == old_done[k]);
                    }
                }
                let mut i: usize = 0;
                while i < count
                    invariant
                        i <= count,
                        count == g.ins(node).len(),
                        g.valid(),
                        g.has_node(node),
                        self.wf(),
                        self.f() == f0,
                        *final(self.function) == *final(old(self).function),
                        g == f0.g(),
                        f0.wf(),
                        done == old_done.push(node),
                        self.marks() == revived_so_far(g, m0, done),
                        forall|k: int|
                            0 <= k < worklist@.len() ==> g.has_node(#[trigger] worklist@[k]) && (
                            worklist@[k] == producer || fed(g, done, worklist@[k])),
                        forall|n: NodeId|
                            before.contains(n) && n != node ==> #[trigger] worklist@.contains(n),
                        forall|k: int|
                            0 <= k < i ==> done.contains(g.producer(#[trigger] g.ins(node)[k]))
                                || worklist@.contains(g.producer(g.ins(node)[k]))
                                || m0.live.contains(g.producer(g.ins(node)[k])),
                    decreases count - i,
                {
                    let ghost w0 = worklist@;
                    proof {
                        lemma_feeds_node(g, node, i as int);
                        assert(done[old_done.len() as int] == node);
                    }
                    let input = self.function.node_inputs(node).at(i);
                    let def = self.function.producer(input);
                    if !self.state.live_nodes.contains(def) {
                        worklist.push(def);
                        proof {
                            assert(fed(g, done, def));
                        }
                    }
                    proof {
                        assert forall|n: NodeId| w0.contains(n) implies #[trigger] worklist@.contains(
                            n,
                        ) by {
                            let k = w0.index_of(n);
                            assert(worklist@[k] == n);
                        }
                        assert forall|n: NodeId|
                            before.contains(n) && n != node implies #[trigger] worklist@.contains(
                            n,
                        ) by {
                            assert(w0.contains(n));
                        }
                        if !revived_so_far(g, m0, done).live.contains(def) {
                            assert(worklist@[w0.len() as int] == def);
                        } else if !m0.live.contains(def) {
                            assert(done.contains(def));
                        }
                    }
                    i += 1;
                }
                proof {
                    assert forall|n: NodeId| old_done.contains(n) implies done.contains(n) by {
                        lemma_push_member(old_done, node, n);
                    }
                    lemma_push_member(old_done, node, node);
                    assert forall|n: NodeId| #[trigger] fed(g, done, n) implies done.contains(n)
                        || worklist@.contains(n) || m0.live.contains(n) || g.kind(
                        n,
                    ).control_flow() by {
                        let k = choose|k: int| 0 <= k < done.len() && feeds(g, #[trigger] done[k], n);
                        if k < old_done.len() {
                            assert(old_done[k] == done[k]);
                            assert(fed(g, old_done, n));
                        } else {
                            let x = choose|x: int|
                                0 <= x < g.ins(node).len() && g.producer(#[trigger] g.ins(node)[x]) == n;
                            assert(g.producer(g.ins(node)[x]) == n);
                        }
                    }
                }
            } else {
                proof {
                    // Whatever is live now was live before or came back.
                    if self.marks().live.contains(node) && !m0.live.contains(node) {
                        assert(done.contains(node));
                    }
                }
            }
        }
        proof {
            lemma_revival_complete(g, m0, producer, done);
            assert(self.marks() =~= m0.attaching(g, value));
        }
    }

    /// Looks at the producers of the listed values that nobody reads.
    pub(crate) fn enqueue_orphaned_producers(&mut self, values: &Vec<ValueId>)
        requires
            old(self).wf(),
            forall|i: int|
                0 <= i < values@.len() ==> old(self).f().g().has_value(#[trigger] values@[i]),
        ensures
            final(self).wf(),
            final(self).edit() == (Edit {
                marks: old(self).marks().orphaning(
                    old(self).f().g(),
                    values@,
                    values@.len() as int,
                ),
                ..old(self).edit()
            }),
            final(self).f() == old(self).f(),
            final(self).same_rest(old(self)),
            *final(final(self).function) == *final(old(self).function),
    {
        let ghost f0 = self.f();
        let ghost g = f0.g();
        let ghost m0 = self.marks();
        proof {
            self.lemma_same_rest_refl();
            f0.lemma_wf();
        }
        let mut i: usize = 0;
        while i < values.len()
            invariant
                self.wf(),
                self.f() == f0,
                f0.wf(),
                f0.gr().wf(),
                g == f0.g(),
                g.valid(),
                self.same_rest(old(self)),
                *final(self.function) == *final(old(self).function),
                i <= values.len(),
                forall|k: int| 0 <= k < values@.len() ==> g.has_value(#[trigger] values@[k]),
                self.marks() == m0.orphaning(g, values@, i as int),
            decreases values.len() - i,
        {
            let value = values[i];
            let ghost at = *self;
            if self.function.graph().value_uses(value).len() == 0 {
                let producer = self.function.producer(value);
                self.enqueue_killed_def_node(producer);
                proof {
                    Self::lemma_same_rest_trans(self, &at, old(self));
                }
            }
            i += 1;
        }
    }

    /// Kills a node, whatever its kind: its inputs are detached, it is struck
    /// off, and operands that nobody reads any more are looked at later.
    pub fn kill_node(&mut self, node: NodeId)
        requires
            old(self).wf(),
            old(self).f().g().has_node(node),
        ensures
            final(self).wf(),
            final(self).edit() == old(self).edit().kill(node),
            final(self).same_rest(old(self)),
            *final(final(self).function) == *final(old(self).function),
    {
        let ghost f0 = self.f();
        let ghost g = f0.g();
        proof {
            f0.lemma_wf();
            crate::graph::model::lemma_detached_valid(g, node);
        }
        let inputs = self.function.node_inputs(node).iter();
        self.function.detach_node_inputs(node);
        self.state.mark_node_dead(node);
        let ghost mid = *self;
        proof {
            assert forall|i: int| 0 <= i < inputs@.len() implies self.f().g().has_value(
                #[trigger] inputs@[i],
            ) by {
                lemma_feeds_node(g, node, i);
            }
            assert(prints_of(&self.f()) =~= prints_of(&f0));
        }
        self.enqueue_orphaned_producers(&inputs);
        proof {
            Self::lemma_same_rest_trans(self, &mid, old(self));
        }
    }

    /// What well-formedness gives.
    pub proof fn lemma_wf(&self)
        requires
            self.wf(),
        ensures
            self.f().wf(),
            marks_ok(self.f().g(), self.marks()),
    {
    }

    /// Redirects an input in the graph alone.
    pub(crate) fn redirect(&mut self, input: UseId, value: ValueId)
        requires
            old(self).wf(),
            old(self).f().g().has_use(input),
            old(self).f().g().attached(input),
            old(self).f().g().has_value(value),
        ensures
            final(self).wf(),
            final(self).edit() == (Edit {
                g: old(self).f().g().redirected(input, value),
                ..old(self).edit()
            }),
            final(self).same_rest(old(self)),
            *final(final(self).function) == *final(old(self).function),
    {
        let ghost f0 = self.f();
        proof {
            f0.lemma_wf();
            crate::graph::model::lemma_redirected_valid(f0.g(), input, value);
        }
        self.function.update_input(input, value);
        assert(prints_of(&self.f()) =~= prints_of(&f0));
    }

    /// Redirects every use of a value in the graph alone.
    pub(crate) fn redirect_all(&mut self, old_value: ValueId, new_value: ValueId)
        requires
            old(self).wf(),
            old(self).f().g().has_value(old_value),
            old(self).f().g().has_value(new_value),
            old_value != new_value,
        ensures
            final(self).wf(),
            final(self).edit() == (Edit {
                g: old(self).f().g().redirected_all(old(self).f().g().readers(old_value), new_value),
                ..old(self).edit()
            }),
            final(self).f().g().nodes == old(self).f().g().nodes,
            final(self).f().g().values == old(self).f().g().values,
            final(self).f().g().readers(old_value).len() == 0,
            final(self).same_rest(old(self)),
            *final(final(self).function) == *final(old(self).function),
    {
        let ghost f0 = self.f();
        self.function.replace_all_uses(old_value, new_value);
        assert(prints_of(&self.f()) =~= prints_of(&f0));
    }

    /// Appends an input in the graph; a root has none.
    pub(crate) fn append(&mut self, node: NodeId, value: ValueId, was_root: bool)
        requires
            old(self).wf(),
            old(self).f().g().has_node(node),
            old(self).f().g().has_value(value),
            old(self).f().g().has_room(0, 1, 0),
            !old(self).f().g().kind(node).cacheable(),
        ensures
            final(self).wf(),
            final(self).edit() == (Edit {
                g: old(self).f().g().with_input(node, value),
                marks: if was_root {
                    Marks { roots: old(self).marks().roots.remove(node), ..old(self).marks() }
                } else {
                    old(self).marks()
                },
                ..old(self).edit()
            }),
            final(self).same_rest(old(self)),
            *final(final(self).function) == *final(old(self).function),
    {
        let ghost f0 = self.f();
        let _ = self.function.add_node_input(node, value);
        if was_root {
            self.state.roots.remove(node);
        }
        assert(prints_of(&self.f()) =~= prints_of(&f0));
    }

    /// Adds one fingerprint to another.
    pub(crate) fn absorb(&mut self, into: NodeId, from: NodeId)
        requires
            old(self).wf(),
        ensures
            final(self).wf(),
            final(self).edit() == old(self).edit().absorb(into, from),
            final(self).same_rest(old(self)),
            *final(final(self).function) == *final(old(self).function),
    {
        let ghost f0 = self.f();
        self.function.absorb_fingerprint(into, from);
        proof {
            let a = prints_of(&self.f());
            let b = old(self).edit().absorb(into, from).prints;
            assert forall|n: NodeId| #[trigger] a[n] =~= b[n] by {
                if n == into {
                    assert forall|x: u64| a[n].contains(x) <==> b[n].contains(x) by {
                        assert(self.f().tables().fingerprint(into).contains(x)
                            <==> f0.tables().fingerprint(into).contains(x)
                            || f0.tables().fingerprint(from).contains(x));
                    }
                } else {
                    assert(self.f().tables().fingerprint(n) == f0.tables().fingerprint(n));
                }
            }
            assert(a =~= b);
        }
    }

    /// Takes inputs out in the graph alone.
    pub(crate) fn take_out(&mut self, node: NodeId, indices: &Vec<usize>)
        requires
            old(self).wf(),
            old(self).f().g().has_node(node),
            !old(self).f().g().kind(node).cacheable(),
        ensures
            final(self).wf(),
            final(self).edit() == (Edit {
                g: old(self).f().g().without_inputs_from(node, indices@, 0),
                ..old(self).edit()
            }),
            final(self).f().g().values == old(self).f().g().values,
            final(self).f().g().nodes.len() == old(self).f().g().nodes.len(),
            final(self).f().g().kind(node) == old(self).f().g().kind(node),
            forall|m: int|
                0 <= m < old(self).f().g().nodes.len() && m != node.0 ==> #[trigger] final(self).f().g().nodes[m] == old(self).f().g().nodes[m],
            final(self).same_rest(old(self)),
            *final(final(self).function) == *final(old(self).function),
    {
        let ghost f0 = self.f();
        self.function.remove_node_inputs_batch(node, indices.as_slice());
        assert(prints_of(&self.f()) =~= prints_of(&f0));
    }

    /// Creates a node whose inputs are live.
    pub(crate) fn create_now(
        &mut self,
        kind: NodeKind,
        inputs: &[ValueId],
        output_kinds: &[ValueKind],
        contributors: &[NodeId],
    ) -> (r: NodeId)
        requires
            old(self).wf(),
            forall|i: int|
                0 <= i < inputs@.len() ==> old(self).f().g().has_value(#[trigger] inputs@[i]),
            old(self).f().g().has_room(1, inputs@.len() as int, output_kinds@.len() as int),
        ensures
            final(self).wf(),
            r == old(self).f().g().created_id(kind, inputs@, output_kinds@),
            ({
                let g = old(self).f().g().created(kind, inputs@, output_kinds@);
                final(self).edit() == (Edit {
                    g,
                    marks: old(self).marks().with_created(g, r),
                    prints: old(self).edit().prints.insert(
                        r,
                        old(self).edit().prints[r].union(
                            contributed(
                                old(self).edit().prints,
                                contributors@,
                                contributors@.len() as int,
                            ),
                        ),
                    ),
                })
            }),
            final(self).same_rest(old(self)),
            *final(final(self).function) == *final(old(self).function),
    {
        let ghost f0 = self.f();
        let ghost p0 = prints_of(&f0);
        let node = self.function.create_node_attributed(kind, inputs, output_kinds, contributors);
        self.state.live_nodes.insert(node);
        if self.function.node_inputs(node).is_empty() {
            self.state.roots.insert(node);
        }
        proof {
            let a = prints_of(&self.f());
            let all = contributed(p0, contributors@, contributors@.len() as int);
            let b = p0.insert(node, p0[node].union(all));
            assert forall|n: NodeId| #[trigger] a[n] =~= b[n] by {
                if n == node {
                    assert forall|x: u64| a[n].contains(x) <==> b[n].contains(x) by {
                        lemma_contributed(&f0, contributors@, contributors@.len() as int, x);
                        assert(self.f().tables().fingerprint(node).contains(x)
                            <==> f0.tables().fingerprint(node).contains(x) || exists|i: int|
                            0 <= i < contributors@.len() && f0.tables().fingerprint(
                                #[trigger] contributors@[i],
                            ).contains(x));
                    }
                } else {
                    assert(self.f().tables().fingerprint(n) == f0.tables().fingerprint(n));
                }
            }
            assert(a =~= b);
        }
        node
    }

    /// Enters a node into the cache, or finds the one of its structure.
    pub(crate) fn share(&mut self, node: NodeId) -> (r: Option<NodeId>)
        requires
            old(self).wf(),
            old(self).f().g().has_node(node),
        ensures
            final(self).wf(),
            ({
                let g = old(self).f().g();
                let hit = g.kind(node).cacheable() && g.cache.contains_key(g.key(node));
                &&& r == (if hit && g.cache[g.key(node)] != node.0 {
                    Some(NodeId(g.cache[g.key(node)]))
                } else {
                    None
                })
                &&& final(self).edit() == (Edit {
                    g: if g.kind(node).cacheable() && !hit {
                        g.cached(node)
                    } else {
                        g
                    },
                    ..old(self).edit()
                })
                &&& r matches Some(twin) ==> g.has_node(twin) && g.out_kinds(twin)
                    == g.out_kinds(node)
            }),
            final(self).waiting() == old(self).waiting(),
            final(self).same_rest(old(self)),
            *final(final(self).function) == *final(old(self).function),
    {
        let ghost f0 = self.f();
        let r = self.function.canonicalize_node(node);
        assert(prints_of(&self.f()) =~= prints_of(&f0));
        r
    }

    pub(crate) fn drop_recanon(&mut self, node: NodeId)
        requires
            old(self).wf(),
        ensures
            final(self).wf(),
            final(self).f() == old(self).f(),
            final(self).marks() == (Marks {
                recanon: old(self).marks().recanon.remove(node),
                ..old(self).marks()
            }),
            final(self).waiting() == old(self).waiting(),
            final(self).same_rest(old(self)),
            *final(final(self).function) == *final(old(self).function),
    {
        proof {
            self.lemma_same_rest_refl();
        }
        self.state.unflag_recanon(node);
    }

    pub(crate) fn drop_killed(&mut self, node: NodeId) -> (r: bool)
        requires
            old(self).wf(),
        ensures
            final(self).wf(),
            final(self).f() == old(self).f(),
            final(self).marks() == (Marks {
                killed: old(self).marks().killed.remove(node),
                ..old(self).marks()
            }),
            r == old(self).marks().killed.contains(node),
            final(self).waiting() == old(self).waiting(),
            final(self).same_rest(old(self)),
            *final(final(self).function) == *final(old(self).function),
    {
        proof {
            self.lemma_same_rest_refl();
        }
        self.state.unflag_killed(node)
    }

    pub(crate) fn needs_recanon(&self, node: NodeId) -> (r: bool)
        ensures
            r == self.marks().recanon.contains(node),
    {
        self.state.recanon.contains(node)
    }

    /// Takes a waiting node.
    pub(crate) fn next_pending(&mut self) -> (r: Option<NodeId>)
        requires
            old(self).wf(),
        ensures
            final(self).wf(),
            final(self).f() == old(self).f(),
            match r {
                Some(n) => {
                    &&& old(self).marks().pending.contains(n)
                    &&& final(self).marks() == (Marks {
                        pending: old(self).marks().pending.remove(n),
                        ..old(self).marks()
                    })
                    &&& final(self).waiting() == old(self).waiting() - 1
                },
                None => {
                    &&& old(self).marks().pending =~= Set::empty()
                    &&& final(self).marks() == old(self).marks()
                },
            },
            final(self).same_rest(old(self)),
            *final(final(self).function) == *final(old(self).function),
    {
        proof {
            self.lemma_same_rest_refl();
        }
        self.state.dequeue()
    }

    /// Whether a node has no side effects, and nothing reads any output.
    pub(crate) fn is_node_dead(&self, node: NodeId) -> (r: bool)
        requires
            self.wf(),
            self.f().g().has_node(node),
        ensures
            r == is_dead(self.f().g(), node),
    {
        proof {
            self.f().lemma_wf();
        }
        if self.function.node_kind(node).has_side_effects() {
            return false;
        }
        let outs = self.function.node_outputs(node);
        let mut i: usize = 0;
        while i < outs.len()
            invariant
                self.function.gr().wf(),
                outs@ == self.f().g().outs(node),
                forall|k: int| 0 <= k < outs@.len() ==> self.f().g().has_value(#[trigger] outs@[k]),
                i <= outs.len(),
                forall|k: int|
                    0 <= k < i ==> self.f().g().readers(#[trigger] outs@[k]).len() == 0,
            decreases outs.len() - i,
        {
            if self.function.graph().value_first_use_id(outs[i]).is_some() {
                return false;
            }
            i += 1;
        }
        true
    }

    /// Takes stock anew.
    pub(crate) fn repopulate(&mut self)
        requires
            old(self).f().wf(),
        ensures
            final(self).wf(),
            final(self).f() == old(self).f(),
            final(self).marks() == populated(&old(self).f()),
            *final(final(self).function) == *final(old(self).function),
    {
        self.state = FunctionState::populate(self.function);
        proof {
            lemma_populated_ok(&self.f());
        }
    }
}

/// What can be reached is in the graph.
proof fn lemma_populated_ok(f: &Function)
    requires
        f.wf(),
    ensures
        marks_ok(f.g(), populated(f)),
{
    f.lemma_wf();
    assert forall|n: NodeId| #[trigger] populated(f).live.contains(n) implies f.g().has_node(n) by {
        crate::graph::walk::lemma_reachable_node(f.g(), f.entry_node(), n);
    }
    assert forall|n: NodeId| #[trigger] populated(f).roots.contains(n) implies f.g().has_node(n) by {
        crate::graph::walk::lemma_reachable_node(f.g(), f.entry_node(), n);
    }
}

proof fn lemma_contributed(f: &Function, from: Seq<NodeId>, k: int, x: u64)
    requires
        0 <= k <= from.len(),
    ensures
        contributed(prints_of(f), from, k).contains(x) <==> exists|i: int|
            0 <= i < k && f.tables().fingerprint(#[trigger] from[i]).contains(x),
    decreases k,
{
    if k > 0 {
        lemma_contributed(f, from, k - 1, x);
        if contributed(prints_of(f), from, k - 1).contains(x) {
            let i = choose|i: int|
                0 <= i < k - 1 && f.tables().fingerprint(#[trigger] from[i]).contains(x);
            assert(f.tables().fingerprint(from[i]).contains(x));
        }
        if f.tables().fingerprint(from[k - 1]).contains(x) {
            assert(f.tables().fingerprint(from[k - 1]).contains(x));
        }
    }
}

/// Some node of a list reads `n`.
spec fn fed(g: GraphModel, done: Seq<NodeId>, n: NodeId) -> bool {
    exists|k: int| 0 <= k < done.len() && feeds(g, #[trigger] done[k], n)
}

/// The marks once the listed nodes came back to life.
spec fn revived_so_far(g: GraphModel, m: Marks, done: Seq<NodeId>) -> Marks {
    let shared = Set::new(|n: NodeId| done.contains(n) && g.kind(n).cacheable());
    Marks {
        live: m.live.union(Set::new(|n: NodeId| done.contains(n))),
        roots: m.roots.union(Set::new(|n: NodeId| done.contains(n) && g.ins(n).len() == 0)),
        pending: m.pending.union(shared),
        recanon: m.recanon.union(shared),
        ..m
    }
}

proof fn lemma_revived_push(g: GraphModel, m: Marks, done: Seq<NodeId>, node: NodeId)
    ensures
        ({
            let a = revived_so_far(g, m, done);
            let b = revived_so_far(g, m, done.push(node));
            let c = Marks { live: a.live.insert(node), ..a };
            let d = if g.kind(node).cacheable() {
                c.flag_recanon(node)
            } else {
                c
            };
            b == if g.ins(node).len() == 0 {
                Marks { roots: d.roots.insert(node), ..d }
            } else {
                d
            }
        }),
{
    let a = revived_so_far(g, m, done);
    let b = revived_so_far(g, m, done.push(node));
    let c = Marks { live: a.live.insert(node), ..a };
    let d = if g.kind(node).cacheable() {
        c.flag_recanon(node)
    } else {
        c
    };
    let e = if g.ins(node).len() == 0 {
        Marks { roots: d.roots.insert(node), ..d }
    } else {
        d
    };
    assert forall|n: NodeId| #[trigger]
        done.push(node).contains(n) <==> done.contains(n) || n == node by {
        lemma_push_member(done, node, n);
    }
    assert(b.live =~= e.live);
    assert(b.roots =~= e.roots);
    assert(b.pending =~= e.pending);
    assert(b.recanon =~= e.recanon);
}

/// A node that a reviving node reads revives too.
proof fn lemma_revive_one(
    g: GraphModel,
    live: Set<NodeId>,
    from: NodeId,
    done: Seq<NodeId>,
    node: NodeId,
)
    requires
        node == from || fed(g, done, node),
        forall|i: int| 0 <= i < done.len() ==> revives(g, live, from, #[trigger] done[i]),
        !live.contains(node),
        !done.contains(node),
        !g.kind(node).control_flow(),
        done.no_duplicates(),
    ensures
        revives(g, live, from, node),
        done.push(node).no_duplicates(),
{
    if node == from {
        assert(is_revival(g, live, seq![node]));
    } else {
        let k = choose|k: int| 0 <= k < done.len() && feeds(g, #[trigger] done[k], node);
        let p = choose|p: Seq<NodeId>| #[trigger]
            is_revival(g, live, p) && p[0] == from && p.last() == done[k];
        let q = p.push(node);
        assert forall|j: int|
            #![trigger q[j], q[j + 1]]
            0 <= j < q.len() - 1 implies feeds(g, q[j], q[j + 1]) by {
            if j < p.len() - 1 {
                assert(q[j] == p[j] && q[j + 1] == p[j + 1]);
            }
        }
        assert forall|j: int| 0 <= j < q.len() implies !live.contains(#[trigger] q[j]) && !g.kind(
            q[j],
        ).control_flow() by {
            if j < p.len() {
                assert(q[j] == p[j]);
            }
        }
        assert(is_revival(g, live, q));
    }
    let s = done.push(node);
    assert forall|i: int, j: int| 0 <= i < s.len() && 0 <= j < s.len() && i != j implies s[i] != s[j] by {
        if i == done.len() {
            assert(done.contains(done[j]));
        } else if j == done.len() {
            assert(done.contains(done[i]));
        }
    }
}

proof fn lemma_revival_path(
    g: GraphModel,
    m: Marks,
    from: NodeId,
    done: Seq<NodeId>,
    p: Seq<NodeId>,
    k: int,
)
    requires
        is_revival(g, m.live, p),
        p[0] == from,
        0 <= k < p.len(),
        done.contains(from) || m.live.contains(from) || g.kind(from).control_flow(),
        forall|n: NodeId| #[trigger]
            fed(g, done, n) ==> done.contains(n) || m.live.contains(n) || g.kind(n).control_flow(),
    ensures
        done.contains(p[k]),
    decreases k,
{
    assert(!m.live.contains(p[k]) && !g.kind(p[k]).control_flow());
    if k > 0 {
        lemma_revival_path(g, m, from, done, p, k - 1);
        let i = done.index_of(p[k - 1]);
        assert(p[k - 1 + 1] == p[k]);
        assert(feeds(g, p[k - 1], p[k - 1 + 1]));
        assert(feeds(g, done[i], p[k]));
        assert(fed(g, done, p[k]));
    }
}

/// When nothing is left to look at, exactly the cone came back.
proof fn lemma_revival_complete(g: GraphModel, m: Marks, from: NodeId, done: Seq<NodeId>)
    requires
        done.contains(from) || m.live.contains(from) || g.kind(from).control_flow(),
        forall|n: NodeId| #[trigger]
            fed(g, done, n) ==> done.contains(n) || m.live.contains(n) || g.kind(n).control_flow(),
        forall|i: int|
            0 <= i < done.len() ==> g.has_node(#[trigger] done[i]) && revives(
                g,
                m.live,
                from,
                done[i],
            ),
    ensures
        forall|n: NodeId| #[trigger] done.contains(n) <==> cone(g, m.live, from).contains(n),
{
    assert forall|n: NodeId| #[trigger] done.contains(n) <==> cone(g, m.live, from).contains(n) by {
        if done.contains(n) {
            let i = done.index_of(n);
            assert(revives(g, m.live, from, done[i]));
        }
        if cone(g, m.live, from).contains(n) {
            let p = choose|p: Seq<NodeId>| #[trigger]
                is_revival(g, m.live, p) && p[0] == from && p.last() == n;
            lemma_revival_path(g, m, from, done, p, p.len() - 1);
        }
    }
}

} // verus!
