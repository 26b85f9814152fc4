//! What holds of edits across the verbs.

use super::model::{
    clean_step, cleans_to, cone, culled_upto, is_dead, is_revival, is_run, phi_positions, revives,
    shifted, twin_of, Edit, Marks,
};
use super::clean::{
    lemma_cone_used, lemma_flag_readers_grows, lemma_orphaning_grows, lemma_redirected_all, unused,
};
use super::verbs::lists_set;
use crate::graph::laws::{
    law_detach, law_readers_are_inputs, law_remove_inputs_keeps_order, lemma_redirected_uses, lemma_unlinked_shape,
};
use crate::graph::model::{kept_from, lemma_detached_valid, GraphModel};
use crate::graph::postorder::{
    is_flow, law_postorder, leads, led_to, position_nodes, postorder_of, reader_nodes, readers_upto,
};
use crate::graph::walk::feeds;
use crate::node::{NodeId, UseId, ValueId};
use vstd::prelude::*;

verus! {

// -- bringing nodes back to life ------------------------------------------------
/// A value whose producer is live gains a use: nothing else changes.
pub proof fn law_attach_live_changes_nothing(m: Marks, g: GraphModel, v: ValueId)
    requires
        m.live.contains(g.producer(v)),
    ensures
        m.attaching(g, v) == m,
{
    let from = g.producer(v);
    assert forall|n: NodeId| !cone(g, m.live, from).contains(n) by {
        if revives(g, m.live, from, n) {
            let p = choose|p: Seq<NodeId>| #[trigger]
                is_revival(g, m.live, p) && p[0] == from && p.last() == n;
            assert(!m.live.contains(p[0]));
        }
    }
    assert(m.attaching(g, v) =~= m);
}

/// A node that steers control does not come back to life because something
/// reads it.
pub proof fn law_attach_spares_control(m: Marks, g: GraphModel, v: ValueId)
    requires
        g.kind(g.producer(v)).control_flow(),
    ensures
        m.attaching(g, v) == m,
{
    let from = g.producer(v);
    assert forall|n: NodeId| !cone(g, m.live, from).contains(n) by {
        if revives(g, m.live, from, n) {
            let p = choose|p: Seq<NodeId>| #[trigger]
                is_revival(g, m.live, p) && p[0] == from && p.last() == n;
            assert(!g.kind(p[0]).control_flow());
        }
    }
    assert(m.attaching(g, v) =~= m);
}

/// A producer that gains a use is live afterwards, and so is what any node
/// that came back reads from, unless that steers control. Those without inputs
/// are roots.
pub proof fn law_attach_revives_cone(m: Marks, g: GraphModel, v: ValueId, a: NodeId, b: NodeId)
    requires
        g.valid(),
        g.has_value(v),
        !g.kind(g.producer(v)).control_flow(),
    ensures
        ({
            let t = m.attaching(g, v);
            &&& t.live.contains(g.producer(v))
            &&& m.live.subset_of(t.live)
            &&& g.has_node(a) && t.live.contains(a) && !m.live.contains(a) ==> {
                &&& t.roots.contains(a) <==> g.ins(a).len() == 0 || m.roots.contains(a)
                &&& feeds(g, a, b) && !g.kind(b).control_flow() ==> t.live.contains(b)
            }
        }),
{
    let from = g.producer(v);
    let t = m.attaching(g, v);
    assert(g.value_ok(v.0 as int));
    if !m.live.contains(from) {
        let p = seq![from];
        assert(is_revival(g, m.live, p) && p[0] == from && p.last() == from);
    }
    if g.has_node(a) && t.live.contains(a) && !m.live.contains(a) && feeds(g, a, b) && !g.kind(
        b,
    ).control_flow() && !m.live.contains(b) {
        assert(revives(g, m.live, from, a));
        let p = choose|p: Seq<NodeId>| #[trigger]
            is_revival(g, m.live, p) && p[0] == from && p.last() == a;
        let q = p.push(b);
        assert forall|k: int|
            #![trigger q[k], q[k + 1]]
            0 <= k < q.len() - 1 implies feeds(g, q[k], q[k + 1]) by {
            if k < p.len() - 1 {
                assert(q[k] == p[k] && q[k + 1] == p[k + 1]);
            }
        }
        assert forall|k: int| 0 <= k < q.len() implies !m.live.contains(#[trigger] q[k])
            && !g.kind(q[k]).control_flow() by {
            if k < p.len() {
                assert(q[k] == p[k]);
            }
        }
        assert(is_revival(g, m.live, q) && q[0] == from && q.last() == b);
        let i = choose|i: int| 0 <= i < g.ins(a).len() && g.producer(#[trigger] g.ins(a)[i]) == b;
        crate::graph::walk::lemma_feeds_node(g, a, i);
    }
}

// -- killing --------------------------------------------------------------------
pub(crate) proof fn lemma_orphaning_sets(m: Marks, g: GraphModel, vs: Seq<ValueId>, k: int)
    ensures
        m.orphaning(g, vs, k).live == m.live,
        m.orphaning(g, vs, k).roots == m.roots,
        m.orphaning(g, vs, k).recanon == m.recanon,
        m.orphaning(g, vs, k).pending.subset_of(m.pending.union(m.live)),
    decreases k,
{
    if k > 0 {
        lemma_orphaning_sets(m, g, vs, k - 1);
    }
}

/// A killed node is neither live nor a root and reads nothing; every other
/// node keeps what it reads, and its place in the sets. The structure it had
/// is forgotten: creating that again makes a fresh node.
pub proof fn law_kill(e: Edit, n: NodeId, m: NodeId)
    requires
        e.g.valid(),
        e.g.has_node(n),
        e.g.has_node(m),
    ensures
        ({
            let t = e.kill(n);
            &&& t.g.valid()
            &&& !t.marks.live.contains(n)
            &&& !t.marks.roots.contains(n)
            &&& t.g.ins(n).len() == 0
            &&& m != n ==> t.marks.live.contains(m) == e.marks.live.contains(m)
            &&& m != n ==> t.marks.roots.contains(m) == e.marks.roots.contains(m)
            &&& m != n ==> t.g.ins(m) == e.g.ins(m)
            &&& t.g.created_id(e.g.kind(n), e.g.ins(n), e.g.out_kinds(n)) == NodeId(
                e.g.nodes.len() as u32,
            )
            &&& t.prints == e.prints
        }),
{
    lemma_detached_valid(e.g, n);
    law_detach(e.g, n, m);
    let vs = e.g.ins(n);
    lemma_orphaning_sets(e.marks.without(n), e.g.detached(n), vs, vs.len() as int);
    lemma_unlinked_shape(e.g.evicted(n), e.g.slots(n));
}

/// A node with side effects is never looked at because it is unused.
pub proof fn law_side_effects_are_never_flagged(m: Marks, g: GraphModel, n: NodeId)
    requires
        g.kind(n).side_effects(),
    ensures
        m.flag_killed(g, n) == m,
        !is_dead(g, n),
{
}

// -- fingerprints ---------------------------------------------------------------
/// Every node keeps the addresses it had.
pub open spec fn prints_kept(a: Edit, b: Edit) -> bool {
    forall|n: NodeId| #[trigger] a.prints[n].subset_of(b.prints[n])
}

/// Replacing a value makes its new producer take over the addresses of the
/// old one; no node loses any.
pub proof fn law_replace_value_keeps_prints(e: Edit, old_value: ValueId, new_value: ValueId)
    requires
        forall|n: NodeId| #[trigger] e.prints.contains_key(n),
    ensures
        prints_kept(e, e.replace_value(old_value, new_value)),
        e.prints[e.g.producer(old_value)].subset_of(
            e.replace_value(old_value, new_value).prints[e.g.producer(new_value)],
        ),
        forall|n: NodeId| #[trigger]
            e.replace_value(old_value, new_value).prints.contains_key(n),
{
}

/// Twins have one output each, of their own.
pub(crate) proof fn lemma_twin_outputs(g: GraphModel, n: NodeId)
    requires
        g.valid(),
        g.has_node(n),
    ensures
        twin_of(g, n) matches Some(twin) ==> {
            &&& g.has_node(twin)
            &&& g.outs(twin).len() == 1
            &&& g.has_value(g.outs(n)[0])
            &&& g.has_value(g.outs(twin)[0])
            &&& g.producer(g.outs(n)[0]) == n
            &&& g.producer(g.outs(twin)[0]) == twin
            &&& g.outs(n)[0] != g.outs(twin)[0]
        },
{
    if let Some(twin) = twin_of(g, n) {
        assert(g.entry_ok(g.key(n)));
        assert(g.nodes[n.0 as int].outputs[0] == g.outs(n)[0]);
        assert(g.output_ok(n.0 as int, 0));
        assert(g.nodes[n.0 as int].inputs.len() <= g.uses.len());
        assert(g.nodes[twin.0 as int].inputs.len() <= g.uses.len());
        crate::cache::law_key_identifies_structure(
            g.kind(n),
            g.ins(n),
            g.out_kinds(n),
            g.kind(twin),
            g.ins(twin),
            g.out_kinds(twin),
        );
        assert(g.out_kinds(twin).len() == g.outs(twin).len());
        assert(g.out_kinds(n).len() == 1);
        assert(g.nodes[twin.0 as int].outputs[0] == g.outs(twin)[0]);
        assert(g.output_ok(twin.0 as int, 0));
    }
}

/// Merging a node into its twin leaves the twin with the addresses of both.
pub proof fn law_merge_keeps_prints(e: Edit, n: NodeId)
    requires
        e.g.valid(),
        e.g.has_node(n),
        forall|n: NodeId| #[trigger] e.prints.contains_key(n),
    ensures
        prints_kept(e, e.canonicalize(n)),
        twin_of(e.g, n) matches Some(twin) ==> e.prints[n].subset_of(
            e.canonicalize(n).prints[twin],
        ),
        forall|n: NodeId| #[trigger] e.canonicalize(n).prints.contains_key(n),
{
    lemma_twin_outputs(e.g, n);
}

// -- cleaning up ----------------------------------------------------------------
/// With nothing waiting, cleaning up changes nothing.
pub proof fn law_clean_at_rest(a: Edit, b: Edit)
    requires
        cleans_to(a, b),
        a.marks.pending =~= Set::empty(),
    ensures
        a == b,
{
    let run = choose|run: Seq<Edit>| #[trigger]
        is_run(run) && run[0] == a && run.last() == b && b.marks.pending =~= Set::empty();
    if run.len() > 1 {
        assert(clean_step(run[0], run[1]));
    }
}

/// After cleaning up nothing waits, so that cleaning up again changes nothing.
pub proof fn law_clean_twice(a: Edit, b: Edit, c: Edit)
    requires
        cleans_to(a, b),
        cleans_to(b, c),
    ensures
        b == c,
{
    law_clean_at_rest(b, c);
}

pub(crate) proof fn lemma_redirected_all_nodes(g: GraphModel, us: Seq<UseId>, v: ValueId)
    ensures
        g.redirected_all(us, v).nodes == g.nodes,
        g.redirected_all(us, v).values == g.values,
    decreases us.len(),
{
    if us.len() > 0 {
        lemma_redirected_all_nodes(g, us.drop_last(), v);
    }
}

pub(crate) proof fn lemma_flag_readers_sets(m: Marks, ps: Seq<(NodeId, u32)>, k: int)
    ensures
        m.flag_readers(ps, k).live == m.live,
        m.flag_readers(ps, k).roots == m.roots,
        m.flag_readers(ps, k).pending.subset_of(m.pending.union(m.live)),
    decreases k,
{
    if k > 0 {
        lemma_flag_readers_sets(m, ps, k - 1);
    }
}

/// What is live or waits is a node.
pub open spec fn marks_nodes(e: Edit) -> bool {
    &&& forall|n: NodeId| #[trigger] e.marks.live.contains(n) ==> e.g.has_node(n)
    &&& forall|n: NodeId| #[trigger] e.marks.pending.contains(n) ==> e.g.has_node(n)
}

/// What one look leaves alone: kinds, and live nodes with side effects.
pub(crate) proof fn lemma_examine_keeps(e: Edit, x: NodeId, n: NodeId)
    requires
        e.g.has_node(n),
        e.g.has_node(x),
        marks_nodes(e),
    ensures
        marks_nodes(e.examine(x)),
        e.examine(x).g.nodes.len() == e.g.nodes.len(),
        e.examine(x).g.kind(n) == e.g.kind(n),
        e.marks.live.contains(n) && e.g.kind(n).side_effects() ==> e.examine(x).marks.live.contains(
            n,
        ),
        forall|n: NodeId| #[trigger]
            e.prints.contains_key(n) ==> e.examine(x).prints.contains_key(n),
{
    lemma_unlinked_shape(e.g.evicted(x), e.g.slots(x));
    let f = Edit {
        marks: Marks {
            killed: e.marks.killed.remove(x),
            pending: e.marks.pending.remove(x),
            ..e.marks
        },
        ..e
    };
    let vs = e.g.ins(x);
    lemma_orphaning_sets(f.marks.without(x), e.g.detached(x), vs, vs.len() as int);
    if let Some(twin) = twin_of(e.g, x) {
        let (from, to) = (e.g.outs(x)[0], e.g.outs(twin)[0]);
        lemma_redirected_all_nodes(e.g, e.g.readers(from), to);
        let ps = e.g.reader_positions(from);
        let m = Marks { recanon: f.marks.recanon.remove(x), ..f.marks };
        lemma_flag_readers_sets(m.attaching(e.g, to), ps, ps.len() as int);
    }
}

proof fn lemma_run_keeps(run: Seq<Edit>, k: int, n: NodeId)
    requires
        is_run(run),
        0 <= k < run.len(),
        run[0].g.has_node(n),
        marks_nodes(run[0]),
    ensures
        marks_nodes(run[k]),
        run[k].g.nodes.len() == run[0].g.nodes.len(),
        run[k].g.kind(n) == run[0].g.kind(n),
        run[0].marks.live.contains(n) && run[0].g.kind(n).side_effects()
            ==> run[k].marks.live.contains(n),
    decreases k,
{
    if k > 0 {
        lemma_run_keeps(run, k - 1, n);
        assert(clean_step(run[k - 1], run[k]));
        let x = choose|x: NodeId|
            run[k - 1].marks.pending.contains(x) && run[k] == #[trigger] run[k - 1].examine(x);
        lemma_examine_keeps(run[k - 1], x, n);
    }
}

/// Cleaning up keeps every node's kind, and never kills a node with side
/// effects.
pub proof fn law_clean_keeps_side_effects(a: Edit, b: Edit, n: NodeId)
    requires
        cleans_to(a, b),
        marks_nodes(a),
        a.g.has_node(n),
    ensures
        b.g.has_node(n),
        b.g.kind(n) == a.g.kind(n),
        a.marks.live.contains(n) && a.g.kind(n).side_effects() ==> b.marks.live.contains(n),
{
    let run = choose|run: Seq<Edit>| #[trigger]
        is_run(run) && run[0] == a && run.last() == b && b.marks.pending =~= Set::empty();
    lemma_run_keeps(run, run.len() - 1, n);
}

/// Cleaning up takes no address away from any node.
pub proof fn law_clean_keeps_prints(a: Edit, b: Edit)
    requires
        cleans_to(a, b),
        forall|n: NodeId| #[trigger] a.prints.contains_key(n),
    ensures
        prints_kept(a, b),
{
    let run = choose|run: Seq<Edit>| #[trigger]
        is_run(run) && run[0] == a && run.last() == b && b.marks.pending =~= Set::empty();
    lemma_run_prints(run, run.len() - 1);
}

proof fn lemma_run_prints(run: Seq<Edit>, k: int)
    requires
        is_run(run),
        0 <= k < run.len(),
        forall|n: NodeId| #[trigger] run[0].prints.contains_key(n),
    ensures
        prints_kept(run[0], run[k]),
        forall|n: NodeId| #[trigger] run[k].prints.contains_key(n),
    decreases k,
{
    if k > 0 {
        lemma_run_prints(run, k - 1);
        assert(clean_step(run[k - 1], run[k]));
        let x = choose|x: NodeId|
            run[k - 1].marks.pending.contains(x) && run[k] == #[trigger] run[k - 1].examine(x);
        assert forall|n: NodeId| #[trigger] run[0].prints[n].subset_of(run[k].prints[n]) by {
            assert(run[0].prints[n].subset_of(run[k - 1].prints[n]));
        }
    }
}

/// Every live node that is dead waits to be killed.
pub open spec fn dead_wait(e: Edit) -> bool {
    forall|n: NodeId| #[trigger]
        e.marks.live.contains(n) && is_dead(e.g, n) ==> e.marks.killed.contains(n)
            && e.marks.pending.contains(n)
}

pub(crate) proof fn lemma_orphaned(m: Marks, g: GraphModel, vs: Seq<ValueId>, k: int, j: int)
    requires
        0 <= j < k <= vs.len(),
        g.readers(vs[j]).len() == 0,
        m.live.contains(g.producer(vs[j])),
        !g.kind(g.producer(vs[j])).side_effects(),
    ensures
        m.orphaning(g, vs, k).killed.contains(g.producer(vs[j])),
        m.orphaning(g, vs, k).pending.contains(g.producer(vs[j])),
    decreases k,
{
    lemma_orphaning_sets(m, g, vs, k - 1);
    if j < k - 1 {
        lemma_orphaned(m, g, vs, k - 1, j);
    }
}

/// A value that something reads is an output of a node that is used.
proof fn lemma_read_used(g: GraphModel, n: NodeId) -> (i: int)
    requires
        !unused(g, n),
    ensures
        0 <= i < g.outs(n).len(),
        g.readers(g.outs(n)[i]).len() > 0,
{
    choose|i: int| 0 <= i < g.outs(n).len() && g.readers(#[trigger] g.outs(n)[i]).len() != 0
}

proof fn lemma_kill_dead_wait(e: Edit, x: NodeId)
    requires
        e.g.valid(),
        marks_nodes(e),
        e.g.has_node(x),
        dead_wait(Edit { marks: Marks { live: e.marks.live.remove(x), ..e.marks }, ..e }),
    ensures
        dead_wait(e.kill(x)),
        e.kill(x).g.valid(),
{
    let g = e.g;
    let h = g.detached(x);
    let t = e.kill(x);
    let vs = g.ins(x);
    let m0 = e.marks.without(x);
    lemma_detached_valid(g, x);
    lemma_orphaning_sets(m0, h, vs, vs.len() as int);
    lemma_orphaning_grows(m0, h, vs, vs.len() as int);
    assert forall|n: NodeId| #[trigger] t.marks.live.contains(n) && is_dead(
        t.g,
        n,
    ) implies t.marks.killed.contains(n) && t.marks.pending.contains(n) by {
        assert(n != x && e.marks.live.contains(n));
        assert(h.kind(n) == g.kind(n) && h.outs(n) == g.outs(n));
        if is_dead(g, n) {
            let less = Edit { marks: Marks { live: e.marks.live.remove(x), ..e.marks }, ..e };
            assert(less.marks.live.contains(n) && is_dead(less.g, n));
            assert(m0.killed.contains(n) && m0.pending.contains(n));
        } else {
            let i = lemma_read_used(g, n);
            let v = g.outs(n)[i];
            assert(g.nodes[n.0 as int].outputs[i] == v && g.output_ok(n.0 as int, i));
            assert(h.readers(h.outs(n)[i]).len() == 0);
            let u = g.lists[v.0 as int][0];
            assert(g.reader_ok(v.0 as int, 0));
            assert(g.lists[v.0 as int].contains(u));
            assert(!h.lists[v.0 as int].contains(u));
            let j = g.uses[u.0 as int].index as int;
            assert(g.uses[u.0 as int].node == x);
            assert(vs[j] == v);
            lemma_orphaned(m0, h, vs, vs.len() as int, j);
        }
    }
}

/// After every use of a value was redirected, other values are read if they
/// were, and the new one is if the old one was.
proof fn lemma_redirected_readers(g: GraphModel, old_value: ValueId, new_value: ValueId, w: ValueId)
    requires
        g.valid(),
        g.has_value(old_value),
        g.has_value(new_value),
        g.has_value(w),
        old_value != new_value,
    ensures
        ({
            let h = g.redirected_all(g.readers(old_value), new_value);
            &&& h.valid()
            &&& w != old_value && g.readers(w).len() > 0 ==> h.readers(w).len() > 0
            &&& g.readers(old_value).len() > 0 ==> h.readers(new_value).len() > 0
        }),
{
    let us = g.readers(old_value);
    assert forall|i: int| 0 <= i < us.len() implies g.has_use(#[trigger] us[i]) && g.attached(
        us[i],
    ) by {
        assert(g.lists[old_value.0 as int][i] == us[i]);
        assert(g.reader_ok(old_value.0 as int, i));
    }
    lemma_redirected_all(g, us, new_value);
    let h = g.redirected_all(us, new_value);
    if w != old_value && g.readers(w).len() > 0 {
        let u = g.lists[w.0 as int][0];
        assert(g.reader_ok(w.0 as int, 0));
        lemma_redirected_uses(g, us, new_value, u);
        if us.contains(u) {
            let i = us.index_of(u);
            assert(g.lists[old_value.0 as int][i] == u);
            assert(g.reader_ok(old_value.0 as int, i));
        }
        lemma_reading_listed(h, u);
    }
    if us.len() > 0 {
        let u = us[0];
        assert(us.contains(u));
        lemma_redirected_uses(g, us, new_value, u);
        lemma_reading_listed(h, u);
    }
}

proof fn lemma_reading_listed(g: GraphModel, u: UseId)
    requires
        g.valid(),
        g.has_use(u),
        g.attached(u),
    ensures
        g.readers(g.uses[u.0 as int].value).len() > 0,
{
    let d = g.uses[u.0 as int];
    assert(g.nodes[d.node.0 as int].inputs[d.index as int] == u);
    assert(g.slot_ok(d.node.0 as int, d.index as int));
    assert(g.lists[d.value.0 as int].contains(u));
}

/// Replacing a value puts its producer in line if that leaves it dead.
pub proof fn law_replace_value_keeps_dead_waiting(
    e: Edit,
    old_value: ValueId,
    new_value: ValueId,
)
    requires
        e.g.valid(),
        marks_nodes(e),
        e.g.has_value(old_value),
        e.g.has_value(new_value),
        dead_wait(e),
    ensures
        dead_wait(e.replace_value(old_value, new_value)),
        e.replace_value(old_value, new_value).g.valid(),
{
    let g = e.g;
    let (x, y) = (g.producer(old_value), g.producer(new_value));
    let t = e.replace_value(old_value, new_value);
    assert(g.value_ok(old_value.0 as int) && g.value_ok(new_value.0 as int));
    if old_value != new_value && g.readers(old_value).len() > 0 {
        let us = g.readers(old_value);
        let h = g.redirected_all(us, new_value);
        lemma_redirected_readers(g, old_value, new_value, old_value);
        assert forall|i: int| 0 <= i < us.len() implies g.has_use(#[trigger] us[i]) && g.attached(
            us[i],
        ) by {
            assert(g.lists[old_value.0 as int][i] == us[i]);
            assert(g.reader_ok(old_value.0 as int, i));
        }
        lemma_redirected_all(g, us, new_value);
        let ps = g.reader_positions(old_value);
        let m1 = e.marks.attaching(g, new_value);
        lemma_flag_readers_sets(m1, ps, ps.len() as int);
        lemma_flag_readers_grows(m1, ps, ps.len() as int);
        assert(t.g == h);
        assert forall|n: NodeId| #[trigger] t.marks.live.contains(n) && is_dead(
            t.g,
            n,
        ) implies t.marks.killed.contains(n) && t.marks.pending.contains(n) by {
            assert(h.kind(n) == g.kind(n) && h.outs(n) == g.outs(n));
            if n != x {
                if e.marks.live.contains(n) && is_dead(g, n) {
                    assert(m1.killed.contains(n) && m1.pending.contains(n));
                } else {
                    if !e.marks.live.contains(n) {
                        assert(cone(g, e.marks.live, y).contains(n));
                        lemma_cone_used(g, e.marks.live, y, n);
                    }
                    if n == y {
                        let k = g.values[new_value.0 as int].index as int;
                        assert(h.readers(h.outs(n)[k]).len() > 0);
                    } else {
                        let k = lemma_read_used(g, n);
                        let w = g.outs(n)[k];
                        assert(g.nodes[n.0 as int].outputs[k] == w && g.output_ok(n.0 as int, k));
                        lemma_redirected_readers(g, old_value, new_value, w);
                        assert(h.readers(h.outs(n)[k]).len() > 0);
                    }
                }
            }
        }
    } else {
        assert forall|n: NodeId| #[trigger] t.marks.live.contains(n) && is_dead(
            t.g,
            n,
        ) implies t.marks.killed.contains(n) && t.marks.pending.contains(n) by {
            assert(e.marks.live.contains(n) && is_dead(e.g, n));
        }
    }
}

/// What comes back to life with a node is that node, or feeds another that
/// comes back.
proof fn lemma_cone_feeds(g: GraphModel, live: Set<NodeId>, from: NodeId, n: NodeId) -> (a: NodeId)
    requires
        g.valid(),
        g.has_node(from),
        cone(g, live, from).contains(n),
        n != from,
    ensures
        g.has_node(a),
        !live.contains(a),
        feeds(g, a, n),
{
    let p = choose|p: Seq<NodeId>| #[trigger]
        is_revival(g, live, p) && p[0] == from && p.last() == n;
    let k = p.len() - 2;
    super::clean::lemma_revival_nodes(g, live, p, k);
    assert(p[k + 1] == n);
    assert(feeds(g, p[k], p[k + 1]));
    p[k]
}

/// Redirecting an input of a live node puts the producer that this leaves dead
/// in line.
pub proof fn law_update_input_keeps_dead_waiting(e: Edit, u: UseId, v: ValueId)
    requires
        e.g.valid(),
        marks_nodes(e),
        e.g.has_use(u),
        e.g.attached(u),
        e.g.has_value(v),
        e.marks.live.contains(e.g.uses[u.0 as int].node),
        dead_wait(e),
    ensures
        dead_wait(e.update_input(u, v)),
        e.update_input(u, v).g.valid(),
{
    let g = e.g;
    let old_value = g.uses[u.0 as int].value;
    let owner = g.uses[u.0 as int].node;
    let t = e.update_input(u, v);
    if old_value != v {
        let h = g.redirected(u, v);
        crate::graph::model::lemma_redirected_valid(g, u, v);
        let x = g.producer(old_value);
        let y = g.producer(v);
        assert(g.has_value(g.uses[u.0 as int].value));
        assert(g.value_ok(old_value.0 as int) && g.value_ok(v.0 as int));
        let m0 = e.marks.detaching(g, old_value);
        let m1 = m0.attaching(g, v);
        assert(h.attached(u));
        assert forall|n: NodeId| #[trigger] t.marks.live.contains(n) && is_dead(
            t.g,
            n,
        ) implies t.marks.killed.contains(n) && t.marks.pending.contains(n) by {
            assert(h.kind(n) == g.kind(n) && h.outs(n) == g.outs(n));
            if e.marks.live.contains(n) && is_dead(g, n) {
                assert(m0.killed.contains(n) && m0.pending.contains(n));
            } else if n == y {
                lemma_reading_listed(h, u);
                let k = g.values[v.0 as int].index as int;
                assert(h.readers(h.outs(n)[k]).len() > 0);
            } else if !e.marks.live.contains(n) {
                assert(cone(g, m0.live, y).contains(n));
                let a = lemma_cone_feeds(g, m0.live, y, n);
                let i = choose|i: int|
                    0 <= i < g.ins(a).len() && g.producer(#[trigger] g.ins(a)[i]) == n;
                lemma_still_read(g, u, v, a, i);
            } else {
                let k = lemma_read_used(g, n);
                let w = g.outs(n)[k];
                assert(g.nodes[n.0 as int].outputs[k] == w && g.output_ok(n.0 as int, k));
                assert(h.readers(h.outs(n)[k]).len() == 0);
                lemma_unread_after(g, u, v, w);
            }
        }
    }
}

/// An input that is not the redirected one reads what it read.
proof fn lemma_still_read(g: GraphModel, u: UseId, v: ValueId, a: NodeId, i: int)
    requires
        g.valid(),
        g.has_use(u),
        g.attached(u),
        g.has_value(v),
        g.has_node(a),
        0 <= i < g.ins(a).len(),
        g.uses[u.0 as int].node != a,
    ensures
        ({
            let h = g.redirected(u, v);
            let n = g.producer(g.ins(a)[i]);
            !unused(h, n)
        }),
{
    let h = g.redirected(u, v);
    crate::graph::model::lemma_redirected_valid(g, u, v);
    assert(g.nodes[a.0 as int].inputs[i] == g.slots(a)[i] && g.slot_ok(a.0 as int, i));
    assert(h.slots(a)[i] == g.slots(a)[i]);
    assert(h.ins(a)[i] == g.ins(a)[i]);
    let n = g.producer(g.ins(a)[i]);
    assert(h.producer(h.ins(a)[i]) == n);
    assert(feeds(h, a, n));
    super::clean::lemma_fed_used(h, a, n);
}

/// A value that lost its readers with one redirected input had no other.
proof fn lemma_unread_after(g: GraphModel, u: UseId, v: ValueId, w: ValueId)
    requires
        g.valid(),
        g.has_use(u),
        g.attached(u),
        g.has_value(v),
        g.has_value(w),
        g.readers(w).len() > 0,
        g.redirected(u, v).readers(w).len() == 0,
    ensures
        w == g.uses[u.0 as int].value,
        g.readers(w).len() == 1,
{
    let h = g.redirected(u, v);
    crate::graph::model::lemma_redirected_valid(g, u, v);
    assert forall|j: int| 0 <= j < g.readers(w).len() implies #[trigger] g.readers(w)[j] == u by {
        let x = g.lists[w.0 as int][j];
        assert(g.reader_ok(w.0 as int, j));
        if x != u {
            assert(h.attached(x));
            lemma_reading_listed(h, x);
        }
    }
    assert(g.readers(w)[0] == u);
    assert(g.reader_ok(w.0 as int, 0));
    assert(g.lists[w.0 as int].no_duplicates());
    if g.readers(w).len() > 1 {
        assert(g.readers(w)[1] == u);
    }
}

proof fn lemma_examine_dead_wait(e: Edit, x: NodeId)
    requires
        e.g.valid(),
        marks_nodes(e),
        e.marks.pending.contains(x),
        dead_wait(e),
    ensures
        dead_wait(e.examine(x)),
        e.examine(x).g.valid(),
        marks_nodes(e.examine(x)),
{
    lemma_examine_keeps(e, x, x);
    let t = e.examine(x);
    let f = Edit {
        marks: Marks {
            killed: e.marks.killed.remove(x),
            pending: e.marks.pending.remove(x),
            ..e.marks
        },
        ..e
    };
    if e.marks.live.contains(x) {
        if e.marks.killed.contains(x) && is_dead(e.g, x) {
            lemma_kill_dead_wait(f, x);
        } else {
            assert(!is_dead(e.g, x));
            assert(dead_wait(f));
            if e.marks.recanon.contains(x) {
                let r = Edit {
                    marks: Marks { recanon: f.marks.recanon.remove(x), ..f.marks },
                    ..f
                };
                assert forall|n: NodeId| #[trigger] r.marks.live.contains(n) && is_dead(
                    r.g,
                    n,
                ) implies r.marks.killed.contains(n) && r.marks.pending.contains(n) by {
                    assert(f.marks.live.contains(n));
                }
                if let Some(twin) = twin_of(e.g, x) {
                    lemma_twin_outputs(e.g, x);
                    law_replace_value_keeps_dead_waiting(r, e.g.outs(x)[0], e.g.outs(twin)[0]);
                } else if e.g.kind(x).cacheable() && !e.g.cache.contains_key(e.g.key(x)) {
                    crate::graph::model::lemma_cached_valid(e.g, x);
                    assert forall|n: NodeId| #[trigger] t.marks.live.contains(n) && is_dead(
                        t.g,
                        n,
                    ) implies t.marks.killed.contains(n) && t.marks.pending.contains(n) by {
                        assert forall|i: int| 0 <= i < e.g.outs(n).len() implies e.g.readers(
                            #[trigger] e.g.outs(n)[i],
                        ).len() == 0 by {
                            assert(t.g.readers(t.g.outs(n)[i]).len() == 0);
                        }
                        assert(is_dead(e.g, n));
                        assert(f.marks.live.contains(n));
                    }
                }
            }
        }
    }
}

pub(crate) proof fn lemma_run_dead_wait(run: Seq<Edit>, k: int)
    requires
        is_run(run),
        0 <= k < run.len(),
        run[0].g.valid(),
        marks_nodes(run[0]),
        dead_wait(run[0]),
    ensures
        run[k].g.valid(),
        marks_nodes(run[k]),
        dead_wait(run[k]),
    decreases k,
{
    if k > 0 {
        lemma_run_dead_wait(run, k - 1);
        assert(clean_step(run[k - 1], run[k]));
        let x = choose|x: NodeId|
            run[k - 1].marks.pending.contains(x) && run[k] == #[trigger] run[k - 1].examine(x);
        lemma_examine_dead_wait(run[k - 1], x);
    }
}

/// Cleaning up leaves nothing dead behind: where every dead node was waiting,
/// no live node is dead afterwards.
pub proof fn law_clean_leaves_nothing_dead(a: Edit, b: Edit, n: NodeId)
    requires
        cleans_to(a, b),
        a.g.valid(),
        marks_nodes(a),
        dead_wait(a),
    ensures
        b.marks.live.contains(n) ==> !is_dead(b.g, n),
{
    let run = choose|run: Seq<Edit>| #[trigger]
        is_run(run) && run[0] == a && run.last() == b && b.marks.pending =~= Set::empty();
    lemma_run_dead_wait(run, run.len() - 1);
}

/// Killing a node puts the operands that this leaves dead in line.
pub proof fn law_kill_keeps_dead_waiting(e: Edit, n: NodeId)
    requires
        e.g.valid(),
        marks_nodes(e),
        e.g.has_node(n),
        dead_wait(e),
    ensures
        dead_wait(e.kill(n)),
{
    let less = Edit { marks: Marks { live: e.marks.live.remove(n), ..e.marks }, ..e };
    assert forall|m: NodeId| #[trigger] less.marks.live.contains(m) && is_dead(
        less.g,
        m,
    ) implies less.marks.killed.contains(m) && less.marks.pending.contains(m) by {
        assert(e.marks.live.contains(m));
    }
    lemma_kill_dead_wait(e, n);
}

// -- culling --------------------------------------------------------------------
/// What culling has done once it is through the first `k` nodes.
spec fn culled_node(e: Edit, order: Seq<NodeId>, k: int, m: NodeId) -> bool {
    !e.marks.live.contains(m) && exists|j: int| 0 <= j < k && #[trigger] order[j] == m
}

proof fn lemma_culled(e: Edit, order: Seq<NodeId>, k: int)
    requires
        e.g.valid(),
        0 <= k <= order.len(),
        e.marks.roots.subset_of(e.marks.live),
        forall|i: int| 0 <= i < order.len() ==> e.g.has_node(#[trigger] order[i]),
    ensures
        ({
            let f = culled_upto(e, order, k);
            &&& f.g.valid()
            &&& f.marks.live == e.marks.live
            &&& f.marks.roots == e.marks.roots
            &&& f.prints == e.prints
            &&& f.g.nodes.len() == e.g.nodes.len()
            &&& f.g.values == e.g.values
            &&& forall|m: NodeId|
                e.g.has_node(m) ==> #[trigger] f.g.outs(m) == e.g.outs(m) && f.g.kind(m) == e.g.kind(
                    m,
                )
            &&& forall|m: NodeId|
                e.g.has_node(m) ==> #[trigger] f.g.ins(m) == (if culled_node(e, order, k, m) {
                    Seq::empty()
                } else {
                    e.g.ins(m)
                })
        }),
    decreases k,
{
    if k > 0 {
        lemma_culled(e, order, k - 1);
        let f = culled_upto(e, order, k - 1);
        let x = order[k - 1];
        let t = culled_upto(e, order, k);
        assert forall|m: NodeId| e.g.has_node(m) implies culled_node(e, order, k, m) == (
        culled_node(e, order, k - 1, m) || (m == x && !e.marks.live.contains(m))) by {
            if culled_node(e, order, k - 1, m) {
                let j = choose|j: int| 0 <= j < k - 1 && #[trigger] order[j] == m;
                assert(order[j] == m);
            }
        }
        if !f.marks.live.contains(x) {
            law_kill(f, x, x);
            assert forall|m: NodeId| e.g.has_node(m) implies #[trigger] t.g.ins(m) == (
            if culled_node(e, order, k, m) {
                Seq::empty()
            } else {
                e.g.ins(m)
            }) by {
                law_kill(f, x, m);
                if m == x {
                    assert(t.g.ins(m) =~= Seq::empty());
                }
            }
            lemma_unlinked_shape(f.g.evicted(x), f.g.slots(x));
            let vs = f.g.ins(x);
            lemma_orphaning_sets(f.marks.without(x), f.g.detached(x), vs, vs.len() as int);
            assert(t.marks.live =~= e.marks.live);
            assert(t.marks.roots =~= e.marks.roots);
            assert forall|m: NodeId| e.g.has_node(m) implies #[trigger] t.g.outs(m) == e.g.outs(m)
                && t.g.kind(m) == e.g.kind(m) by {
                assert(f.g.outs(m) == e.g.outs(m));
            }
        }
    }
}

/// Culling changes neither the live set nor the roots, and takes the inputs of
/// exactly those nodes that are not live and that the roots lead to.
pub proof fn law_cull(e: Edit, roots: Seq<NodeId>, m: NodeId)
    requires
        e.g.valid(),
        e.marks.roots.subset_of(e.marks.live),
        forall|n: NodeId| #[trigger] e.marks.roots.contains(n) ==> e.g.has_node(n),
        lists_set(roots, e.marks.roots),
        e.g.has_node(m),
    ensures
        ({
            let order = postorder_of(e.g, Set::full(), roots);
            let f = culled_upto(e, order, order.len() as int);
            &&& f.g.valid()
            &&& f.marks.live == e.marks.live
            &&& f.marks.roots == e.marks.roots
            &&& f.prints == e.prints
            &&& f.g.nodes.len() == e.g.nodes.len()
            &&& f.g.kind(m) == e.g.kind(m)
            &&& f.g.outs(m) == e.g.outs(m)
            &&& f.g.ins(m) == (if !e.marks.live.contains(m) && led_to(
                e.g,
                Set::full(),
                roots,
                m,
            ) {
                Seq::empty()
            } else {
                e.g.ins(m)
            })
        }),
{
    let order = postorder_of(e.g, Set::full(), roots);
    assert forall|i: int| 0 <= i < roots.len() implies e.g.has_node(#[trigger] roots[i]) by {
        assert(roots.contains(roots[i]));
    }
    law_postorder(e.g, Set::full(), roots);
    lemma_culled(e, order, order.len() as int);
    let f = culled_upto(e, order, order.len() as int);
    assert(f.g.ins(m) == f.g.ins(m) && f.g.outs(m) == f.g.outs(m));
    if order.contains(m) {
        let j = order.index_of(m);
        assert(order[j] == m);
    }
    assert(culled_node(e, order, order.len() as int, m) == (!e.marks.live.contains(m)
        && order.contains(m)));
}

proof fn lemma_readers_upto_feeds(g: GraphModel, a: NodeId, k: int, b: NodeId)
    requires
        g.valid(),
        g.has_node(a),
        0 <= k <= g.outs(a).len(),
    ensures
        readers_upto(g, a, k).contains(b) ==> g.has_node(b) && feeds(g, b, a),
        forall|i: int, v: int|
            #![trigger g.ins(b)[i], g.outs(a)[v]]
            g.has_node(b) && 0 <= i < g.ins(b).len() && 0 <= v < k && g.ins(b)[i] == g.outs(a)[v]
                ==> readers_upto(g, a, k).contains(b),
    decreases k,
{
    if k > 0 {
        lemma_readers_upto_feeds(g, a, k - 1, b);
        let v = g.outs(a)[k - 1];
        assert(g.nodes[a.0 as int].outputs[k - 1] == v);
        assert(g.output_ok(a.0 as int, k - 1));
        let sub = readers_upto(g, a, k - 1);
        let ps = g.reader_positions(v);
        let more = position_nodes(ps);
        let all = readers_upto(g, a, k);
        if all.contains(b) {
            let x = all.index_of(b);
            if x < sub.len() {
                assert(sub[x] == b);
            } else {
                let j = x - sub.len();
                assert(more[j] == b);
                assert(ps.contains(ps[j]));
                law_readers_are_inputs(g, v, b, ps[j].1);
                assert(g.producer(g.ins(b)[ps[j].1 as int]) == a);
            }
        }
        if sub.contains(b) {
            let x = sub.index_of(b);
            assert(all[x] == b);
        }
        assert forall|i: int, w: int|
            #![trigger g.ins(b)[i], g.outs(a)[w]]
            g.has_node(b) && 0 <= i < g.ins(b).len() && 0 <= w < k && g.ins(b)[i] == g.outs(
                a,
            )[w] implies all.contains(b) by {
            if w == k - 1 {
                assert(g.nodes[b.0 as int].inputs.len() <= g.uses.len());
                law_readers_are_inputs(g, v, b, i as u32);
                let j = ps.index_of((b, i as u32));
                assert(more[j] == b);
                assert(all[sub.len() + j] == b);
            } else {
                assert(sub.contains(b));
            }
        }
    }
}

/// The readers of a node's outputs are the nodes it feeds.
pub proof fn law_readers_are_fed(g: GraphModel, a: NodeId, b: NodeId)
    requires
        g.valid(),
        g.has_node(a),
    ensures
        reader_nodes(g, a).contains(b) <==> g.has_node(b) && feeds(g, b, a),
{
    lemma_readers_upto_feeds(g, a, g.outs(a).len() as int, b);
    if g.has_node(b) && feeds(g, b, a) {
        let i = choose|i: int| 0 <= i < g.ins(b).len() && g.producer(#[trigger] g.ins(b)[i]) == a;
        let v = g.ins(b)[i];
        crate::graph::walk::lemma_feeds_node(g, b, i);
        assert(g.nodes[b.0 as int].inputs[i] == g.slots(b)[i]);
        assert(g.slot_ok(b.0 as int, i));
        assert(g.value_ok(v.0 as int));
        let w = g.values[v.0 as int].index as int;
        assert(g.outs(a)[w] == v);
    }
}

proof fn lemma_flow_before_cull(
    e: Edit,
    f: Edit,
    roots: Seq<NodeId>,
    p: Seq<NodeId>,
    k: int,
)
    requires
        e.g.valid(),
        f.g.valid(),
        is_flow(f.g, Set::full(), p),
        0 <= k < p.len(),
        e.g.has_node(p[0]),
        f.g.nodes.len() == e.g.nodes.len(),
        f.g.values == e.g.values,
        forall|m: NodeId|
            e.g.has_node(m) ==> (#[trigger] f.g.ins(m)).len() == 0 || f.g.ins(m) == e.g.ins(m),
    ensures
        e.g.has_node(p[k]),
        is_flow(e.g, Set::full(), p.take(k + 1)),
        k > 0 ==> f.g.ins(p[k]).len() > 0,
    decreases k,
{
    if k > 0 {
        lemma_flow_before_cull(e, f, roots, p, k - 1);
        let (a, b) = (p[k - 1], p[k - 1 + 1]);
        assert(reader_nodes(f.g, a).contains(b));
        law_readers_are_fed(f.g, a, b);
        let i = choose|i: int|
            0 <= i < f.g.ins(b).len() && f.g.producer(#[trigger] f.g.ins(b)[i]) == a;
        assert(f.g.ins(b) == e.g.ins(b));
        assert(e.g.producer(e.g.ins(b)[i]) == a);
        law_readers_are_fed(e.g, a, b);
        let q = p.take(k + 1);
        let q0 = p.take(k);
        assert forall|j: int|
            #![trigger q[j], q[j + 1]]
            0 <= j < q.len() - 1 implies reader_nodes(e.g, q[j]).contains(q[j + 1]) by {
            if j < k - 1 {
                assert(q[j] == q0[j] && q[j + 1] == q0[j + 1]);
            }
        }
    }
}

proof fn lemma_all_live_cull(e: Edit, order: Seq<NodeId>, k: int)
    requires
        0 <= k <= order.len(),
        forall|i: int| 0 <= i < order.len() ==> e.marks.live.contains(#[trigger] order[i]),
    ensures
        culled_upto(e, order, k) == e,
    decreases k,
{
    if k > 0 {
        lemma_all_live_cull(e, order, k - 1);
        assert(e.marks.live.contains(order[k - 1]));
    }
}

/// Culling twice is culling once.
pub proof fn law_cull_twice(e: Edit, roots: Seq<NodeId>)
    requires
        e.g.valid(),
        e.marks.roots.subset_of(e.marks.live),
        forall|n: NodeId| #[trigger] e.marks.roots.contains(n) ==> e.g.has_node(n),
        lists_set(roots, e.marks.roots),
    ensures
        ({
            let order = postorder_of(e.g, Set::full(), roots);
            let f = culled_upto(e, order, order.len() as int);
            let again = postorder_of(f.g, Set::full(), roots);
            culled_upto(f, again, again.len() as int) == f
        }),
{
    let full = Set::<NodeId>::full();
    let order = postorder_of(e.g, full, roots);
    let f = culled_upto(e, order, order.len() as int);
    let again = postorder_of(f.g, full, roots);
    assert forall|i: int| 0 <= i < roots.len() implies e.g.has_node(#[trigger] roots[i]) by {
        assert(roots.contains(roots[i]));
    }
    law_postorder(e.g, full, roots);
    lemma_culled(e, order, order.len() as int);
    law_postorder(f.g, full, roots);
    assert forall|i: int| 0 <= i < again.len() implies f.marks.live.contains(#[trigger] again[i]) by {
        let n = again[i];
        assert(again.contains(n));
        assert(led_to(f.g, full, roots, n));
        let r = choose|r: NodeId| #[trigger] roots.contains(r) && leads(f.g, full, r, n);
        let p = choose|p: Seq<NodeId>| #[trigger]
            is_flow(f.g, full, p) && p[0] == r && p.last() == n;
        assert(e.marks.roots.contains(r));
        assert forall|m: NodeId| e.g.has_node(m) implies (#[trigger] f.g.ins(m)).len() == 0
            || f.g.ins(m) == e.g.ins(m) by {}
        lemma_flow_before_cull(e, f, roots, p, p.len() - 1);
        if p.len() > 1 {
            assert(p.take(p.len() as int) =~= p);
            assert(leads(e.g, full, r, n));
            assert(led_to(e.g, full, roots, n));
            assert(order.contains(n));
            law_cull(e, roots, n);
        }
    }
    lemma_all_live_cull(f, again, again.len() as int);
}

// -- predecessors ---------------------------------------------------------------
/// What is kept after the first position is kept there too when all positions
/// are one further on.
proof fn lemma_kept_shifted(s: Seq<ValueId>, indices: Seq<u32>, p: int)
    requires
        0 <= p < s.len(),
        forall|i: int| 0 <= i < indices.len() ==> #[trigger] indices[i] < u32::MAX,
    ensures
        kept_from(s, shifted(indices, 1), p + 1) == kept_from(s.skip(1), shifted(indices, 0), p),
    decreases s.len() - p,
{
    let over = shifted(indices, 1);
    let here = shifted(indices, 0);
    let rest = s.skip(1);
    if p + 1 < s.len() {
        lemma_kept_shifted(s, indices, p + 1);
        assert(rest[p] == s[p + 1]);
        assert((exists|k: int| 0 <= k < over.len() && #[trigger] over[k] == p + 1) == (exists|k: int|
            0 <= k < here.len() && #[trigger] here[k] == p)) by {
            if exists|k: int| 0 <= k < over.len() && #[trigger] over[k] == p + 1 {
                let k = choose|k: int| 0 <= k < over.len() && #[trigger] over[k] == p + 1;
                assert(indices[k] < u32::MAX);
                assert(here[k] == p);
            }
            if exists|k: int| 0 <= k < here.len() && #[trigger] here[k] == p {
                let k = choose|k: int| 0 <= k < here.len() && #[trigger] here[k] == p;
                assert(indices[k] < u32::MAX);
                assert(over[k] == p + 1);
            }
        }
    }
}

proof fn lemma_kept_after_first(s: Seq<ValueId>, indices: Seq<u32>)
    requires
        s.len() > 0,
        forall|i: int| 0 <= i < indices.len() ==> #[trigger] indices[i] < u32::MAX,
    ensures
        kept_from(s, shifted(indices, 1), 0) == seq![s[0]] + kept_from(
            s.skip(1),
            shifted(indices, 0),
            0,
        ),
{
    lemma_kept_shifted(s, indices, 0);
    let over = shifted(indices, 1);
    assert forall|k: int| 0 <= k < over.len() implies #[trigger] over[k] != 0 by {
        assert(indices[k] < u32::MAX);
    }
}

/// The nodes at distinct positions, none of them shared.
spec fn distinct_phis(g: GraphModel, ps: Seq<(NodeId, u32)>) -> bool {
    &&& forall|i: int| 0 <= i < ps.len() ==> g.has_node((#[trigger] ps[i]).0)
    &&& forall|i: int| 0 <= i < ps.len() ==> !g.kind((#[trigger] ps[i]).0).cacheable()
    &&& forall|i: int, j: int|
        #![trigger ps[i], ps[j]]
        0 <= i < j < ps.len() ==> ps[i].0 != ps[j].0
}

proof fn lemma_remove_inputs_of(
    e: Edit,
    ps: Seq<(NodeId, u32)>,
    listed: Seq<usize>,
    k: int,
    m: NodeId,
)
    requires
        e.g.valid(),
        distinct_phis(e.g, ps),
        0 <= k <= ps.len(),
        e.g.has_node(m),
    ensures
        ({
            let t = e.remove_inputs_of(ps, listed, k);
            &&& t.g.valid()
            &&& t.g.nodes.len() == e.g.nodes.len()
            &&& t.g.values == e.g.values
            &&& t.g.kind(m) == e.g.kind(m)
            &&& t.g.ins(m) == (if exists|j: int| 0 <= j < k && (#[trigger] ps[j]).0 == m {
                kept_from(e.g.ins(m), listed, 0)
            } else {
                e.g.ins(m)
            })
        }),
    decreases k,
{
    if k > 0 {
        lemma_remove_inputs_of(e, ps, listed, k - 1, m);
        let t = e.remove_inputs_of(ps, listed, k - 1);
        let x = ps[k - 1].0;
        lemma_remove_inputs_of(e, ps, listed, k - 1, x);
        law_remove_inputs_keeps_order(t.g, x, listed, m);
        if x == m {
            assert(!(exists|j: int| 0 <= j < k - 1 && (#[trigger] ps[j]).0 == m)) by {
                assert forall|j: int| 0 <= j < k - 1 implies (#[trigger] ps[j]).0 != m by {
                    assert(ps[j].0 != ps[k - 1].0);
                }
            }
        }
        assert((exists|j: int| 0 <= j < k && (#[trigger] ps[j]).0 == m) == ((exists|j: int|
            0 <= j < k - 1 && (#[trigger] ps[j]).0 == m) || x == m)) by {
            if exists|j: int| 0 <= j < k - 1 && (#[trigger] ps[j]).0 == m {
                let j = choose|j: int| 0 <= j < k - 1 && (#[trigger] ps[j]).0 == m;
                assert(ps[j].0 == m);
            }
            if x == m {
                assert(ps[k - 1].0 == m);
            }
        }
    }
}

/// Taking predecessors out of a region leaves the same ones in the region and
/// in every phi over it, in order: the value a phi takes from a predecessor
/// stays one place after it.
pub proof fn law_remove_predecessors_keeps_pairs(
    e: Edit,
    region: NodeId,
    indices: Seq<u32>,
    phi: NodeId,
)
    requires
        e.g.valid(),
        e.g.has_node(region),
        !e.g.kind(region).cacheable(),
        forall|i: int|
            0 <= i < phi_positions(e.g, region).len() ==> !e.g.kind(
                (#[trigger] phi_positions(e.g, region)[i]).0,
            ).cacheable(),
        forall|i: int|
            0 <= i < phi_positions(e.g, region).len() ==> (#[trigger] phi_positions(
                e.g,
                region,
            )[i]).1 == 0 && phi_positions(e.g, region)[i].0 != region,
        forall|i: int| 0 <= i < indices.len() ==> #[trigger] indices[i] < u32::MAX,
        phi_positions(e.g, region).contains((phi, 0u32)),
        indices.len() > 0,
    ensures
        ({
            let t = e.remove_predecessors(region, indices);
            let listed = shifted(indices, 0);
            &&& t.g.valid()
            &&& t.g.ins(region) == kept_from(e.g.ins(region), listed, 0)
            &&& e.g.ins(phi).len() > 0
            &&& t.g.ins(phi) == seq![e.g.ins(phi)[0]] + kept_from(e.g.ins(phi).skip(1), listed, 0)
        }),
{
    let g = e.g;
    let ps = phi_positions(g, region);
    let over = shifted(indices, 1);
    let here = shifted(indices, 0);
    let token = g.outs(region)[1];
    assert(g.nodes[region.0 as int].outputs[1] == token && g.output_ok(region.0 as int, 1));
    assert forall|i: int| 0 <= i < ps.len() implies g.has_node((#[trigger] ps[i]).0) by {
        assert(ps.contains(ps[i]));
        law_readers_are_inputs(g, token, ps[i].0, ps[i].1);
    }
    law_readers_are_inputs(g, token, phi, 0);
    assert forall|i: int, j: int|
        #![trigger ps[i], ps[j]]
        0 <= i < j < ps.len() implies ps[i].0 != ps[j].0 by {
        assert(ps[i].1 == 0 && ps[j].1 == 0);
        assert(ps[i] != ps[j]);
    }
    lemma_remove_inputs_of(e, ps, over, ps.len() as int, phi);
    lemma_remove_inputs_of(e, ps, over, ps.len() as int, region);
    let mid = e.remove_inputs_of(ps, over, ps.len() as int);
    law_remove_inputs_keeps_order(mid.g, region, here, phi);
    law_remove_inputs_keeps_order(mid.g, region, here, region);
    let x = ps.index_of((phi, 0u32));
    assert(ps[x].0 == phi);
    lemma_kept_after_first(g.ins(phi), indices);
}

} // verus!
