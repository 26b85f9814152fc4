//! What an edit does: to the graph, to the sets of live and root nodes, to the
//! nodes that wait to be looked at, and to the fingerprints.

use crate::graph::model::GraphModel;
use crate::graph::walk::feeds;
use crate::node::{NodeId, NodeKind, UseId, ValueId, ValueKind};
use vstd::prelude::*;

verus! {

/// What an edit keeps in mind: the live nodes, those among them without
/// inputs, the nodes that wait to be looked at, and why: some output of a
/// killed-flagged node lost its last use, and the inputs of a recanon-flagged
/// node changed, so that it may have become a twin of another.
#[verifier::ext_equal]
pub struct Marks {
    pub live: Set<NodeId>,
    pub roots: Set<NodeId>,
    pub pending: Set<NodeId>,
    pub killed: Set<NodeId>,
    pub recanon: Set<NodeId>,
}

/// The state of an edit.
#[verifier::ext_equal]
pub struct Edit {
    pub g: GraphModel,
    pub marks: Marks,
    pub prints: Map<NodeId, Set<u64>>,
}

/// A chain of nodes that come back to life together: each feeds the one
/// before, and none is live or steers control.
pub open spec fn is_revival(g: GraphModel, live: Set<NodeId>, p: Seq<NodeId>) -> bool {
    &&& p.len() > 0
    &&& forall|k: int|
        0 <= k < p.len() ==> !live.contains(#[trigger] p[k]) && !g.kind(p[k]).control_flow()
    &&& forall|k: int|
        #![trigger p[k], p[k + 1]]
        0 <= k < p.len() - 1 ==> feeds(g, p[k], p[k + 1])
}

/// `n` comes back to life with `from`.
pub open spec fn revives(g: GraphModel, live: Set<NodeId>, from: NodeId, n: NodeId) -> bool {
    exists|p: Seq<NodeId>| #[trigger] is_revival(g, live, p) && p[0] == from && p.last() == n
}

/// What comes back to life with a node.
pub open spec fn cone(g: GraphModel, live: Set<NodeId>, from: NodeId) -> Set<NodeId> {
    Set::new(|n: NodeId| g.has_node(n) && revives(g, live, from, n))
}

impl Marks {
    /// A live node waits to be looked at.
    pub open spec fn enqueued(self, n: NodeId) -> Marks {
        if self.live.contains(n) {
            Marks { pending: self.pending.insert(n), ..self }
        } else {
            self
        }
    }

    /// Some output of a node lost its last use; a node with side effects stays
    /// whether it is used or not.
    pub open spec fn flag_killed(self, g: GraphModel, n: NodeId) -> Marks {
        if g.kind(n).side_effects() {
            self
        } else {
            (Marks { killed: self.killed.insert(n), ..self }).enqueued(n)
        }
    }

    /// The inputs of a node changed.
    pub open spec fn flag_recanon(self, n: NodeId) -> Marks {
        if self.live.contains(n) {
            (Marks { recanon: self.recanon.insert(n), ..self }).enqueued(n)
        } else {
            self
        }
    }

    /// The inputs of the first `k` listed nodes changed.
    pub open spec fn flag_readers(self, ps: Seq<(NodeId, u32)>, k: int) -> Marks
        decreases k,
    {
        if k <= 0 {
            self
        } else {
            self.flag_readers(ps, k - 1).flag_recanon(ps[k - 1].0)
        }
    }

    /// A value is about to lose a use: its producer is looked at if that use
    /// is the last.
    pub open spec fn detaching(self, g: GraphModel, v: ValueId) -> Marks {
        if g.readers(v).len() <= 1 {
            self.flag_killed(g, g.producer(v))
        } else {
            self
        }
    }

    /// A value is about to gain a use: its producer comes back to life with
    /// all that it depends on. What comes back may meanwhile have a twin.
    pub open spec fn attaching(self, g: GraphModel, v: ValueId) -> Marks {
        let back = cone(g, self.live, g.producer(v));
        let shared = back.filter(|n: NodeId| g.kind(n).cacheable());
        Marks {
            live: self.live.union(back),
            roots: self.roots.union(back.filter(|n: NodeId| g.ins(n).len() == 0)),
            pending: self.pending.union(shared),
            recanon: self.recanon.union(shared),
            ..self
        }
    }

    /// The first `k` values are about to gain a use each.
    pub open spec fn attaching_all(self, g: GraphModel, vs: Seq<ValueId>, k: int) -> Marks
        decreases k,
    {
        if k <= 0 {
            self
        } else {
            self.attaching_all(g, vs, k - 1).attaching(g, vs[k - 1])
        }
    }

    /// The producers of those of the first `k` values that nobody reads are
    /// looked at.
    pub open spec fn orphaning(self, g: GraphModel, vs: Seq<ValueId>, k: int) -> Marks
        decreases k,
    {
        if k <= 0 {
            self
        } else {
            let m = self.orphaning(g, vs, k - 1);
            if g.readers(vs[k - 1]).len() == 0 {
                m.flag_killed(g, g.producer(vs[k - 1]))
            } else {
                m
            }
        }
    }

    /// A node is dead.
    pub open spec fn without(self, n: NodeId) -> Marks {
        Marks {
            live: self.live.remove(n),
            roots: self.roots.remove(n),
            killed: self.killed.remove(n),
            recanon: self.recanon.remove(n),
            ..self
        }
    }

    /// A node was created.
    pub open spec fn with_created(self, g: GraphModel, n: NodeId) -> Marks {
        Marks {
            live: self.live.insert(n),
            roots: if g.ins(n).len() == 0 {
                self.roots.insert(n)
            } else {
                self.roots
            },
            ..self
        }
    }
}

/// Dead: nothing reads any output, and the node has no side effects.
pub open spec fn is_dead(g: GraphModel, n: NodeId) -> bool {
    !g.kind(n).side_effects() && forall|i: int|
        0 <= i < g.outs(n).len() ==> g.readers(#[trigger] g.outs(n)[i]).len() == 0
}

/// The twin that a node may be merged into: another node of its structure.
/// Both have one output, and neither has side effects.
pub open spec fn twin_of(g: GraphModel, n: NodeId) -> Option<NodeId> {
    if g.kind(n).cacheable() && !g.kind(n).side_effects() && g.outs(n).len() == 1
        && g.cache.contains_key(g.key(n)) && g.cache[g.key(n)] != n.0 {
        Some(NodeId(g.cache[g.key(n)]))
    } else {
        None
    }
}

impl Edit {
    /// A node is killed: its inputs are detached, and operands that nobody
    /// reads any more are looked at.
    pub open spec fn kill(self, n: NodeId) -> Edit {
        let g = self.g.detached(n);
        let vs = self.g.ins(n);
        Edit { g, marks: self.marks.without(n).orphaning(g, vs, vs.len() as int), ..self }
    }

    /// One input is redirected.
    pub open spec fn update_input(self, u: UseId, v: ValueId) -> Edit {
        let displaced = self.g.uses[u.0 as int].value;
        if displaced == v {
            self
        } else {
            Edit {
                g: self.g.redirected(u, v),
                marks: self.marks.detaching(self.g, displaced).attaching(self.g, v).flag_recanon(
                    self.g.uses[u.0 as int].node,
                ),
                ..self
            }
        }
    }

    /// Every use of a value is redirected.
    pub open spec fn replace_all_uses(self, old_value: ValueId, new_value: ValueId) -> Edit {
        if old_value == new_value || self.g.readers(old_value).len() == 0 {
            self
        } else {
            let ps = self.g.reader_positions(old_value);
            Edit {
                g: self.g.redirected_all(self.g.readers(old_value), new_value),
                marks: self.marks.attaching(self.g, new_value).flag_readers(ps, ps.len() as int),
                ..self
            }
        }
    }

    /// The fingerprint of one node is added to that of another.
    pub open spec fn absorb(self, into: NodeId, from: NodeId) -> Edit {
        Edit {
            prints: self.prints.insert(into, self.prints[into].union(self.prints[from])),
            ..self
        }
    }

    /// Every use of a value is redirected; the new producer takes over the
    /// fingerprint of the old one, which is looked at.
    pub open spec fn replace_value(self, old_value: ValueId, new_value: ValueId) -> Edit {
        let from = self.g.producer(old_value);
        let e = self.absorb(self.g.producer(new_value), from).replace_all_uses(
            old_value,
            new_value,
        );
        Edit { marks: e.marks.flag_killed(e.g, from), ..e }
    }

    /// One input is redirected; where that was the last use, the new producer
    /// takes over the fingerprint of the old one.
    pub open spec fn redirect_input(self, u: UseId, v: ValueId) -> Edit {
        let displaced = self.g.uses[u.0 as int].value;
        let e = self.update_input(u, v);
        if self.g.readers(displaced).len() == 1 {
            e.absorb(self.g.producer(v), self.g.producer(displaced))
        } else {
            e
        }
    }

    /// A node whose structure changed is merged into its twin, or becomes the
    /// one that others are merged into.
    pub open spec fn canonicalize(self, n: NodeId) -> Edit {
        let e = Edit {
            marks: Marks { recanon: self.marks.recanon.remove(n), ..self.marks },
            ..self
        };
        match twin_of(self.g, n) {
            Some(twin) => e.replace_value(self.g.outs(n)[0], self.g.outs(twin)[0]),
            None => if self.g.kind(n).cacheable() && !self.g.cache.contains_key(self.g.key(n)) {
                Edit { g: self.g.cached(n), ..e }
            } else {
                e
            },
        }
    }

    /// A waiting node is looked at: it is killed if it is dead, and otherwise
    /// merged into a twin if it has one.
    pub open spec fn examine(self, n: NodeId) -> Edit {
        let e = Edit {
            marks: Marks { pending: self.marks.pending.remove(n), ..self.marks },
            ..self
        };
        if !self.marks.live.contains(n) {
            e
        } else {
            let f = Edit { marks: Marks { killed: e.marks.killed.remove(n), ..e.marks }, ..e };
            if self.marks.killed.contains(n) && is_dead(self.g, n) {
                f.kill(n)
            } else if self.marks.recanon.contains(n) {
                f.canonicalize(n)
            } else {
                f
            }
        }
    }
}

/// Some waiting node is looked at.
pub open spec fn clean_step(a: Edit, b: Edit) -> bool {
    exists|n: NodeId| a.marks.pending.contains(n) && b == #[trigger] a.examine(n)
}

/// A run: in each step some waiting node is looked at.
pub open spec fn is_run(run: Seq<Edit>) -> bool {
    &&& run.len() > 0
    &&& forall|k: int| 0 < k < run.len() ==> clean_step(run[k - 1], #[trigger] run[k])
}

/// What cleaning up may make of a state.
pub open spec fn cleans_to(a: Edit, b: Edit) -> bool {
    exists|run: Seq<Edit>| #[trigger]
        is_run(run) && run[0] == a && run.last() == b && b.marks.pending =~= Set::empty()
}

/// The state once each of the first `k` nodes of a list that is not live is
/// killed.
pub open spec fn culled_upto(e: Edit, order: Seq<NodeId>, k: int) -> Edit
    decreases k,
{
    if k <= 0 {
        e
    } else {
        let f = culled_upto(e, order, k - 1);
        if f.marks.live.contains(order[k - 1]) {
            f
        } else {
            f.kill(order[k - 1])
        }
    }
}

/// The addresses behind any of the first `k` contributors.
pub open spec fn contributed(prints: Map<NodeId, Set<u64>>, from: Seq<NodeId>, k: int) -> Set<u64>
    decreases k,
{
    if k <= 0 {
        Set::empty()
    } else {
        contributed(prints, from, k - 1).union(prints[from[k - 1]])
    }
}

/// The values at those of the first `k` listed positions that exist.
pub open spec fn values_at(vs: Seq<ValueId>, listed: Seq<usize>, k: int) -> Seq<ValueId>
    decreases k,
{
    if k <= 0 {
        Seq::empty()
    } else if listed[k - 1] < vs.len() {
        values_at(vs, listed, k - 1).push(vs[listed[k - 1] as int])
    } else {
        values_at(vs, listed, k - 1)
    }
}

/// Positions as they are, or each one further on.
pub open spec fn shifted(indices: Seq<u32>, by: int) -> Seq<usize> {
    Seq::new(indices.len(), |i: int| (indices[i] + by) as usize)
}

impl Edit {
    /// A node is created, or the one of its structure is found: its inputs
    /// come to life, and it takes over what contributed to it.
    pub open spec fn create(
        self,
        kind: NodeKind,
        inputs: Seq<ValueId>,
        outputs: Seq<ValueKind>,
        from: Seq<NodeId>,
    ) -> Edit {
        let n = self.g.created_id(kind, inputs, outputs);
        let g = self.g.created(kind, inputs, outputs);
        Edit {
            g,
            marks: self.marks.attaching_all(self.g, inputs, inputs.len() as int).with_created(
                g,
                n,
            ),
            prints: self.prints.insert(
                n,
                self.prints[n].union(contributed(self.prints, from, from.len() as int)),
            ),
        }
    }

    /// An input is appended to a node.
    pub open spec fn add_input(self, n: NodeId, v: ValueId) -> Edit {
        let m = self.marks.attaching(self.g, v);
        Edit {
            g: self.g.with_input(n, v),
            marks: if self.g.ins(n).len() == 0 {
                Marks { roots: m.roots.remove(n), ..m }
            } else {
                m
            },
            ..self
        }
    }

    /// The inputs at the listed positions are taken out of a node.
    pub open spec fn remove_inputs(self, n: NodeId, listed: Seq<usize>) -> Edit {
        let g = self.g.without_inputs_from(n, listed, 0);
        let vs = values_at(self.g.ins(n), listed, listed.len() as int);
        Edit { g, marks: self.marks.orphaning(g, vs, vs.len() as int), ..self }
    }

    /// The inputs at the listed positions are taken out of the first `k` nodes.
    pub open spec fn remove_inputs_of(
        self,
        ps: Seq<(NodeId, u32)>,
        listed: Seq<usize>,
        k: int,
    ) -> Edit
        decreases k,
    {
        if k <= 0 {
            self
        } else {
            self.remove_inputs_of(ps, listed, k - 1).remove_inputs(ps[k - 1].0, listed)
        }
    }

    /// Predecessors are taken out of a region, and with each the value that
    /// every phi over the region takes from it.
    pub open spec fn remove_predecessors(self, region: NodeId, indices: Seq<u32>) -> Edit {
        if indices.len() == 0 {
            self
        } else {
            let ps = phi_positions(self.g, region);
            self.remove_inputs_of(ps, shifted(indices, 1), ps.len() as int).remove_inputs(
                region,
                shifted(indices, 0),
            )
        }
    }
}

/// The inputs that read the token of a region.
pub open spec fn phi_positions(g: GraphModel, region: NodeId) -> Seq<(NodeId, u32)> {
    if g.outs(region).len() >= 2 {
        g.reader_positions(g.outs(region)[1])
    } else {
        Seq::empty()
    }
}

} // verus!
