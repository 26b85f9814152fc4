//! The live set stays accurate: with a node, what it reads from is live.

use super::clean::lemma_redirected_all;
use super::edit_function::populated;
use super::laws::{
    law_attach_revives_cone, law_cull, lemma_examine_keeps, lemma_flag_readers_sets, lemma_orphaning_sets,
    marks_nodes,
};
use super::model::{
    clean_step, cleans_to, cone, culled_upto, is_dead, is_run, twin_of, values_at, Edit, Marks,
};
use super::verbs::lists_set;
use crate::function::func::Function;
use crate::graph::laws::{
    law_create_keeps_validity, law_readers_are_inputs, law_remove_inputs_keeps_order,
    lemma_redirected_uses,
};
use crate::graph::model::{
    kept_from, lemma_detached_valid, lemma_extends_node, lemma_redirected_valid, GraphModel,
};
use crate::graph::postorder::postorder_of;
use crate::graph::walk::{
    controls, feeds, lemma_closed_holds_reachable, lemma_feeds_node, lemma_reachable_node,
    lemma_reachable_self, lemma_reachable_step, reachable, steps_to,
};
use crate::node::{NodeId, NodeKind, UseId, ValueId, ValueKind};
use vstd::prelude::*;

verus! {

/// What a live node reads from is live, unless it steers control.
pub open spec fn live_closed(g: GraphModel, live: Set<NodeId>) -> bool {
    forall|a: NodeId, b: NodeId|
        g.has_node(a) && live.contains(a) && #[trigger] feeds(g, a, b) && !g.kind(b).control_flow()
            ==> live.contains(b)
}

/// A fresh edit starts with an accurate live set.
pub proof fn law_new_edit_is_accurate(f: &Function)
    requires
        f.wf(),
    ensures
        live_closed(f.g(), populated(f).live),
{
    f.lemma_wf();
    let g = f.g();
    let live = populated(f).live;
    assert forall|a: NodeId, b: NodeId|
        g.has_node(a) && live.contains(a) && #[trigger] feeds(g, a, b) && !g.kind(
            b,
        ).control_flow() implies live.contains(b) by {
        assert(steps_to(g, a, b));
        lemma_reachable_step(g, f.entry_node(), a, b);
    }
}

proof fn lemma_attaching_closed(m: Marks, g: GraphModel, v: ValueId)
    requires
        g.valid(),
        g.has_value(v),
        live_closed(g, m.live),
    ensures
        live_closed(g, m.attaching(g, v).live),
        m.live.subset_of(m.attaching(g, v).live),
        g.kind(g.producer(v)).control_flow() || m.attaching(g, v).live.contains(g.producer(v)),
{
    let t = m.attaching(g, v);
    if !g.kind(g.producer(v)).control_flow() {
        assert forall|a: NodeId, b: NodeId|
            g.has_node(a) && t.live.contains(a) && #[trigger] feeds(g, a, b) && !g.kind(
                b,
            ).control_flow() implies t.live.contains(b) by {
            law_attach_revives_cone(m, g, v, a, b);
        }
        law_attach_revives_cone(m, g, v, g.producer(v), g.producer(v));
    } else {
        super::laws::law_attach_spares_control(m, g, v);
    }
}

proof fn lemma_attaching_all_closed(m: Marks, g: GraphModel, vs: Seq<ValueId>, k: int)
    requires
        g.valid(),
        0 <= k <= vs.len(),
        forall|i: int| 0 <= i < vs.len() ==> g.has_value(#[trigger] vs[i]),
        live_closed(g, m.live),
    ensures
        ({
            let t = m.attaching_all(g, vs, k);
            &&& live_closed(g, t.live)
            &&& m.live.subset_of(t.live)
            &&& forall|i: int|
                0 <= i < k ==> g.kind(g.producer(#[trigger] vs[i])).control_flow()
                    || t.live.contains(g.producer(vs[i]))
        }),
    decreases k,
{
    if k > 0 {
        lemma_attaching_all_closed(m, g, vs, k - 1);
        assert(g.has_value(vs[k - 1]));
        lemma_attaching_closed(m.attaching_all(g, vs, k - 1), g, vs[k - 1]);
    }
}

/// Where every node of `h` reads what it read in `g`, or something whose
/// producer is live, the live set stays accurate.
proof fn lemma_closed_over(g: GraphModel, h: GraphModel, live: Set<NodeId>, v: ValueId)
    requires
        g.valid(),
        live_closed(g, live),
        h.nodes.len() == g.nodes.len(),
        h.values == g.values,
        forall|n: NodeId| g.has_node(n) ==> #[trigger] h.kind(n) == g.kind(n),
        forall|n: NodeId, i: int|
            #![trigger h.ins(n)[i]]
            g.has_node(n) && 0 <= i < h.ins(n).len() ==> g.ins(n).contains(h.ins(n)[i]) || h.ins(
                n,
            )[i] == v,
        g.has_value(v),
        g.kind(g.producer(v)).control_flow() || live.contains(g.producer(v)),
    ensures
        live_closed(h, live),
{
    assert forall|a: NodeId, b: NodeId|
        h.has_node(a) && live.contains(a) && #[trigger] feeds(h, a, b) && !h.kind(
            b,
        ).control_flow() implies live.contains(b) by {
        let i = choose|i: int| 0 <= i < h.ins(a).len() && h.producer(#[trigger] h.ins(a)[i]) == b;
        let w = h.ins(a)[i];
        if w == v {
            assert(g.value_ok(v.0 as int));
            assert(h.kind(b) == g.kind(b));
        } else {
            let j = g.ins(a).index_of(w);
            assert(g.producer(g.ins(a)[j]) == b);
            assert(feeds(g, a, b));
            lemma_feeds_node(g, a, j);
            assert(h.kind(b) == g.kind(b));
        }
    }
}

proof fn lemma_redirected_reads(g: GraphModel, us: Seq<UseId>, v: ValueId, n: NodeId, i: int)
    requires
        g.valid(),
        g.has_value(v),
        g.has_node(n),
        forall|k: int| 0 <= k < us.len() ==> g.has_use(#[trigger] us[k]) && g.attached(us[k]),
        0 <= i < g.ins(n).len(),
    ensures
        g.redirected_all(us, v).ins(n).len() == g.ins(n).len(),
        g.redirected_all(us, v).ins(n)[i] == g.ins(n)[i] || g.redirected_all(us, v).ins(n)[i] == v,
{
    lemma_redirected_all(g, us, v);
    let u = g.slots(n)[i];
    assert(g.nodes[n.0 as int].inputs[i] == u);
    assert(g.slot_ok(n.0 as int, i));
    lemma_redirected_uses(g, us, v, u);
}

/// Redirecting one input keeps the live set accurate.
pub proof fn law_update_input_keeps_live_accurate(e: Edit, u: UseId, v: ValueId)
    requires
        e.g.valid(),
        e.g.has_use(u),
        e.g.attached(u),
        e.g.has_value(v),
        live_closed(e.g, e.marks.live),
    ensures
        live_closed(e.update_input(u, v).g, e.update_input(u, v).marks.live),
{
    let g = e.g;
    let displaced = g.uses[u.0 as int].value;
    if displaced != v {
        let m = e.marks.detaching(g, displaced);
        assert(m.live == e.marks.live);
        lemma_attaching_closed(m, g, v);
        lemma_redirected_valid(g, u, v);
        let h = g.redirected(u, v);
        let live = m.attaching(g, v).live;
        assert forall|n: NodeId, i: int|
            #![trigger h.ins(n)[i]]
            g.has_node(n) && 0 <= i < h.ins(n).len() implies g.ins(n).contains(h.ins(n)[i])
            || h.ins(n)[i] == v by {
            crate::graph::laws::law_redirect_changes_one_input(g, u, v, n, i);
            assert(g.ins(n).contains(g.ins(n)[i]));
        }
        lemma_closed_over(g, h, live, v);
    }
}

/// Replacing every use of a value keeps the live set accurate.
pub proof fn law_replace_all_keeps_live_accurate(e: Edit, old_value: ValueId, new_value: ValueId)
    requires
        e.g.valid(),
        e.g.has_value(old_value),
        e.g.has_value(new_value),
        live_closed(e.g, e.marks.live),
    ensures
        ({
            let t = e.replace_all_uses(old_value, new_value);
            live_closed(t.g, t.marks.live)
        }),
        ({
            let t = e.replace_value(old_value, new_value);
            live_closed(t.g, t.marks.live)
        }),
{
    let g = e.g;
    if old_value != new_value && g.readers(old_value).len() > 0 {
        lemma_attaching_closed(e.marks, g, new_value);
        let us = g.readers(old_value);
        assert forall|i: int| 0 <= i < us.len() implies g.has_use(#[trigger] us[i]) && g.attached(
            us[i],
        ) by {
            assert(g.lists[old_value.0 as int][i] == us[i]);
            assert(g.reader_ok(old_value.0 as int, i));
        }
        lemma_redirected_all(g, us, new_value);
        let h = g.redirected_all(us, new_value);
        let live = e.marks.attaching(g, new_value).live;
        assert forall|n: NodeId, i: int|
            #![trigger h.ins(n)[i]]
            g.has_node(n) && 0 <= i < h.ins(n).len() implies g.ins(n).contains(h.ins(n)[i])
            || h.ins(n)[i] == new_value by {
            lemma_redirected_reads(g, us, new_value, n, i);
            assert(g.ins(n).contains(g.ins(n)[i]));
        }
        lemma_closed_over(g, h, live, new_value);
        let ps = g.reader_positions(old_value);
        lemma_flag_readers_sets(e.marks.attaching(g, new_value), ps, ps.len() as int);
    }
}

/// Creating a node keeps the live set accurate.
pub proof fn law_create_keeps_live_accurate(
    e: Edit,
    kind: NodeKind,
    inputs: Seq<ValueId>,
    outputs: Seq<ValueKind>,
    from: Seq<NodeId>,
)
    requires
        e.g.valid(),
        e.g.has_room(1, inputs.len() as int, outputs.len() as int),
        forall|i: int| 0 <= i < inputs.len() ==> e.g.has_value(#[trigger] inputs[i]),
        marks_nodes(e),
        live_closed(e.g, e.marks.live),
    ensures
        ({
            let t = e.create(kind, inputs, outputs, from);
            live_closed(t.g, t.marks.live)
        }),
{
    let g = e.g;
    let t = e.create(kind, inputs, outputs, from);
    let h = t.g;
    let n = g.created_id(kind, inputs, outputs);
    law_create_keeps_validity(g, kind, inputs, outputs);
    lemma_attaching_all_closed(e.marks, g, inputs, inputs.len() as int);
    let m = e.marks.attaching_all(g, inputs, inputs.len() as int);
    lemma_attached_are_nodes(e.marks, g, inputs, inputs.len() as int);
    assert forall|a: NodeId, b: NodeId|
        h.has_node(a) && t.marks.live.contains(a) && #[trigger] feeds(h, a, b) && !h.kind(
            b,
        ).control_flow() implies t.marks.live.contains(b) by {
        let i = choose|i: int| 0 <= i < h.ins(a).len() && h.producer(#[trigger] h.ins(a)[i]) == b;
        let v = h.ins(a)[i];
        if a == n {
            assert(inputs[i] == v);
            assert(g.has_value(inputs[i]));
            assert(h.values[v.0 as int] == g.values[v.0 as int]);
            assert(g.value_ok(v.0 as int));
            assert(h.nodes[b.0 as int] == g.nodes[b.0 as int]);
            assert(g.kind(g.producer(inputs[i])).control_flow() || m.live.contains(
                g.producer(inputs[i]),
            ));
        } else {
            assert(m.live.contains(a));
            lemma_extends_node(h, g, a);
            lemma_feeds_node(g, a, i);
            assert(g.nodes[a.0 as int].inputs[i] == g.slots(a)[i] && g.slot_ok(a.0 as int, i));
            assert(h.values[v.0 as int] == g.values[v.0 as int]);
            assert(g.producer(g.ins(a)[i]) == b);
            assert(feeds(g, a, b));
            assert(h.nodes[b.0 as int] == g.nodes[b.0 as int]);
        }
    }
}

proof fn lemma_attached_are_nodes(m: Marks, g: GraphModel, vs: Seq<ValueId>, k: int)
    requires
        forall|n: NodeId| #[trigger] m.live.contains(n) ==> g.has_node(n),
    ensures
        forall|n: NodeId| #[trigger] m.attaching_all(g, vs, k).live.contains(n) ==> g.has_node(n),
    decreases k,
{
    if k > 0 {
        lemma_attached_are_nodes(m, g, vs, k - 1);
        let rest = m.attaching_all(g, vs, k - 1);
        assert forall|n: NodeId| #[trigger] m.attaching_all(g, vs, k).live.contains(n) implies g.has_node(
            n,
        ) by {
            assert(rest.live.contains(n) || cone(g, rest.live, g.producer(vs[k - 1])).contains(n));
        }
    }
}

/// Appending an input keeps the live set accurate.
pub proof fn law_add_input_keeps_live_accurate(e: Edit, n: NodeId, v: ValueId)
    requires
        e.g.valid(),
        e.g.has_node(n),
        e.g.has_value(v),
        live_closed(e.g, e.marks.live),
    ensures
        live_closed(e.add_input(n, v).g, e.add_input(n, v).marks.live),
{
    let g = e.g;
    let h = g.with_input(n, v);
    lemma_attaching_closed(e.marks, g, v);
    assert forall|m: NodeId, i: int|
        #![trigger h.ins(m)[i]]
        g.has_node(m) && 0 <= i < h.ins(m).len() implies g.ins(m).contains(h.ins(m)[i]) || h.ins(
        m,
    )[i] == v by {
        if i < g.ins(m).len() {
            assert(g.nodes[m.0 as int].inputs[i] == g.slots(m)[i]);
            assert(g.slot_ok(m.0 as int, i));
            assert(h.slots(m)[i] == g.slots(m)[i]);
            assert(h.ins(m)[i] == g.ins(m)[i]);
            assert(g.ins(m).contains(g.ins(m)[i]));
        } else {
            assert(m == n);
        }
    }
    lemma_closed_over(g, h, e.marks.attaching(g, v).live, v);
}

proof fn lemma_kept_within(s: Seq<ValueId>, listed: Seq<usize>, p: int)
    requires
        0 <= p,
    ensures
        forall|i: int|
            0 <= i < kept_from(s, listed, p).len() ==> s.contains(
                #[trigger] kept_from(s, listed, p)[i],
            ),
    decreases s.len() - p,
{
    if p < s.len() {
        lemma_kept_within(s, listed, p + 1);
        let rest = kept_from(s, listed, p + 1);
        let all = kept_from(s, listed, p);
        assert forall|i: int| 0 <= i < all.len() implies s.contains(#[trigger] all[i]) by {
            if all.len() == rest.len() {
                assert(all[i] == rest[i]);
            } else if i > 0 {
                assert(all[i] == rest[i - 1]);
            } else {
                assert(all[i] == s[p]);
            }
        }
    }
}

proof fn lemma_fewer_reads(g: GraphModel, h: GraphModel, live: Set<NodeId>)
    requires
        g.valid(),
        live_closed(g, live),
        h.nodes.len() == g.nodes.len(),
        h.values == g.values,
        forall|n: NodeId| g.has_node(n) ==> #[trigger] h.kind(n) == g.kind(n),
        forall|n: NodeId, i: int|
            #![trigger h.ins(n)[i]]
            g.has_node(n) && 0 <= i < h.ins(n).len() ==> g.ins(n).contains(h.ins(n)[i]),
    ensures
        live_closed(h, live),
{
    assert forall|a: NodeId, b: NodeId|
        h.has_node(a) && live.contains(a) && #[trigger] feeds(h, a, b) && !h.kind(
            b,
        ).control_flow() implies live.contains(b) by {
        let i = choose|i: int| 0 <= i < h.ins(a).len() && h.producer(#[trigger] h.ins(a)[i]) == b;
        let j = g.ins(a).index_of(h.ins(a)[i]);
        assert(g.producer(g.ins(a)[j]) == b);
        assert(feeds(g, a, b));
        lemma_feeds_node(g, a, j);
        assert(h.kind(b) == g.kind(b));
    }
}

/// Taking inputs out keeps the live set accurate.
pub proof fn law_remove_inputs_keeps_live_accurate(e: Edit, n: NodeId, listed: Seq<usize>)
    requires
        e.g.valid(),
        e.g.has_node(n),
        !e.g.kind(n).cacheable(),
        live_closed(e.g, e.marks.live),
    ensures
        live_closed(e.remove_inputs(n, listed).g, e.remove_inputs(n, listed).marks.live),
        e.remove_inputs(n, listed).g.valid(),
{
    let g = e.g;
    let h = g.without_inputs_from(n, listed, 0);
    law_remove_inputs_keeps_order(g, n, listed, n);
    lemma_kept_within(g.ins(n), listed, 0);
    assert forall|m: NodeId| g.has_node(m) implies #[trigger] h.kind(m) == g.kind(m) by {
        law_remove_inputs_keeps_order(g, n, listed, m);
    }
    assert forall|m: NodeId, i: int|
        #![trigger h.ins(m)[i]]
        g.has_node(m) && 0 <= i < h.ins(m).len() implies g.ins(m).contains(h.ins(m)[i]) by {
        law_remove_inputs_keeps_order(g, n, listed, m);
        assert(m != n ==> g.ins(m).contains(g.ins(m)[i]));
    }
    lemma_fewer_reads(g, h, e.marks.live);
    let vs = values_at(g.ins(n), listed, listed.len() as int);
    lemma_orphaning_sets(e.marks, h, vs, vs.len() as int);
}

/// Killing a node that nothing reads keeps the live set accurate.
pub proof fn law_kill_unused_keeps_live_accurate(e: Edit, n: NodeId)
    requires
        e.g.valid(),
        e.g.has_node(n),
        super::clean::unused(e.g, n),
        live_closed(e.g, e.marks.live),
    ensures
        live_closed(e.kill(n).g, e.kill(n).marks.live),
{
    let g = e.g;
    let h = g.detached(n);
    lemma_detached_valid(g, n);
    let vs = g.ins(n);
    lemma_orphaning_sets(e.marks.without(n), h, vs, vs.len() as int);
    let live = e.marks.live.remove(n);
    assert forall|a: NodeId, b: NodeId|
        h.has_node(a) && live.contains(a) && #[trigger] feeds(h, a, b) && !h.kind(
            b,
        ).control_flow() implies live.contains(b) by {
        let i = choose|i: int| 0 <= i < h.ins(a).len() && h.producer(#[trigger] h.ins(a)[i]) == b;
        assert(h.slots(a) == g.slots(a));
        assert(g.producer(g.ins(a)[i]) == b);
        assert(feeds(g, a, b));
        super::clean::lemma_fed_used(g, a, b);
        assert(h.kind(b) == g.kind(b));
    }
}

proof fn lemma_examine_closed(e: Edit, x: NodeId)
    requires
        e.g.valid(),
        marks_nodes(e),
        e.g.has_node(x),
        live_closed(e.g, e.marks.live),
    ensures
        live_closed(e.examine(x).g, e.examine(x).marks.live),
        e.examine(x).g.valid(),
{
    let f = Edit {
        marks: Marks {
            killed: e.marks.killed.remove(x),
            pending: e.marks.pending.remove(x),
            ..e.marks
        },
        ..e
    };
    let g = e.g;
    if e.marks.live.contains(x) {
        if e.marks.killed.contains(x) && is_dead(g, x) {
            law_kill_unused_keeps_live_accurate(f, x);
            lemma_detached_valid(g, x);
        } else if e.marks.recanon.contains(x) {
            let h = Edit {
                marks: Marks { recanon: f.marks.recanon.remove(x), ..f.marks },
                ..f
            };
            if let Some(twin) = twin_of(g, x) {
                super::laws::lemma_twin_outputs(g, x);
                let (old_value, new_value) = (g.outs(x)[0], g.outs(twin)[0]);
                law_replace_all_keeps_live_accurate(h, old_value, new_value);
                let us = g.readers(old_value);
                assert forall|i: int| 0 <= i < us.len() implies g.has_use(#[trigger] us[i])
                    && g.attached(us[i]) by {
                    assert(g.lists[old_value.0 as int][i] == us[i]);
                    assert(g.reader_ok(old_value.0 as int, i));
                }
                lemma_redirected_all(g, us, new_value);
            } else if g.kind(x).cacheable() && !g.cache.contains_key(g.key(x)) {
                crate::graph::model::lemma_cached_valid(g, x);
                let c = g.cached(x);
                assert forall|n: NodeId, i: int|
                    #![trigger c.ins(n)[i]]
                    g.has_node(n) && 0 <= i < c.ins(n).len() implies g.ins(n).contains(
                    c.ins(n)[i],
                ) by {
                    assert(c.ins(n)[i] == g.ins(n)[i]);
                    assert(g.ins(n).contains(g.ins(n)[i]));
                }
                assert(c.values == g.values);
                assert forall|n: NodeId| g.has_node(n) implies #[trigger] c.kind(n) == g.kind(n) by {}
                lemma_fewer_reads(g, c, e.marks.live);
            }
        }
    }
}

proof fn lemma_run_closed(run: Seq<Edit>, k: int)
    requires
        is_run(run),
        0 <= k < run.len(),
        run[0].g.valid(),
        marks_nodes(run[0]),
        live_closed(run[0].g, run[0].marks.live),
    ensures
        run[k].g.valid(),
        marks_nodes(run[k]),
        live_closed(run[k].g, run[k].marks.live),
    decreases k,
{
    if k > 0 {
        lemma_run_closed(run, k - 1);
        assert(clean_step(run[k - 1], run[k]));
        let x = choose|x: NodeId|
            run[k - 1].marks.pending.contains(x) && run[k] == #[trigger] run[k - 1].examine(x);
        lemma_examine_keeps(run[k - 1], x, x);
        lemma_examine_closed(run[k - 1], x);
    }
}

/// Cleaning up keeps the live set accurate.
pub proof fn law_clean_keeps_live_accurate(a: Edit, b: Edit)
    requires
        cleans_to(a, b),
        a.g.valid(),
        marks_nodes(a),
        live_closed(a.g, a.marks.live),
    ensures
        live_closed(b.g, b.marks.live),
{
    let run = choose|run: Seq<Edit>| #[trigger]
        is_run(run) && run[0] == a && run.last() == b && b.marks.pending =~= Set::empty();
    lemma_run_closed(run, run.len() - 1);
}

// -- taking stock anew ----------------------------------------------------------
/// Control leads from `a` to `b`: an input of `b` reads a control output of
/// `a`.
proof fn lemma_controls_inputs(g: GraphModel, a: NodeId, b: NodeId)
    requires
        g.valid(),
        g.has_node(a),
    ensures
        controls(g, a, b) <==> g.has_node(b) && exists|i: int, k: int|
            #![trigger g.outs(a)[i], g.ins(b)[k]]
            0 <= i < g.outs(a).len() && g.value_kind(g.outs(a)[i]) == ValueKind::Control && 0 <= k
                < g.ins(b).len() && g.ins(b)[k] == g.outs(a)[i],
{
    if controls(g, a, b) {
        let (i, j) = choose|i: int, j: int|
            #![trigger g.reader_positions(g.outs(a)[i])[j]]
            0 <= i < g.outs(a).len() && g.value_kind(g.outs(a)[i]) == ValueKind::Control && 0 <= j
                < g.reader_positions(g.outs(a)[i]).len() && g.reader_positions(
                g.outs(a)[i],
            )[j].0 == b;
        let v = g.outs(a)[i];
        assert(g.nodes[a.0 as int].outputs[i] == v && g.output_ok(a.0 as int, i));
        let ps = g.reader_positions(v);
        assert(ps.contains(ps[j]));
        law_readers_are_inputs(g, v, b, ps[j].1);
        assert(g.ins(b)[ps[j].1 as int] == g.outs(a)[i]);
    }
    if g.has_node(b) && exists|i: int, k: int|
        #![trigger g.outs(a)[i], g.ins(b)[k]]
        0 <= i < g.outs(a).len() && g.value_kind(g.outs(a)[i]) == ValueKind::Control && 0 <= k
            < g.ins(b).len() && g.ins(b)[k] == g.outs(a)[i] {
        let (i, k) = choose|i: int, k: int|
            #![trigger g.outs(a)[i], g.ins(b)[k]]
            0 <= i < g.outs(a).len() && g.value_kind(g.outs(a)[i]) == ValueKind::Control && 0 <= k
                < g.ins(b).len() && g.ins(b)[k] == g.outs(a)[i];
        let v = g.outs(a)[i];
        assert(g.nodes[a.0 as int].outputs[i] == v && g.output_ok(a.0 as int, i));
        assert(g.nodes[b.0 as int].inputs.len() <= g.uses.len());
        law_readers_are_inputs(g, v, b, k as u32);
        let ps = g.reader_positions(v);
        let j = ps.index_of((b, k as u32));
        assert(g.reader_positions(g.outs(a)[i])[j].0 == b);
    }
}

/// Culling leaves the steps between live nodes alone, and adds none.
proof fn lemma_cull_steps(e: Edit, t: Edit, a: NodeId, b: NodeId)
    requires
        e.g.valid(),
        t.g.valid(),
        t.g.nodes.len() == e.g.nodes.len(),
        t.g.values == e.g.values,
        e.g.has_node(a),
        e.marks.live.contains(a),
        forall|m: NodeId| e.g.has_node(m) ==> #[trigger] t.g.outs(m) == e.g.outs(m),
        forall|m: NodeId|
            e.g.has_node(m) ==> #[trigger] t.g.ins(m) == e.g.ins(m) || (t.g.ins(m).len() == 0
                && !e.marks.live.contains(m)),
    ensures
        steps_to(t.g, a, b) ==> steps_to(e.g, a, b),
        steps_to(e.g, a, b) && e.marks.live.contains(b) ==> steps_to(t.g, a, b),
{
    lemma_controls_inputs(e.g, a, b);
    lemma_controls_inputs(t.g, a, b);
    assert(t.g.ins(a) == e.g.ins(a));
    assert(t.g.outs(a) == e.g.outs(a));
    if feeds(t.g, a, b) {
        let i = choose|i: int|
            0 <= i < t.g.ins(a).len() && t.g.producer(#[trigger] t.g.ins(a)[i]) == b;
        assert(e.g.producer(e.g.ins(a)[i]) == b);
    }
    if feeds(e.g, a, b) {
        let i = choose|i: int|
            0 <= i < e.g.ins(a).len() && e.g.producer(#[trigger] e.g.ins(a)[i]) == b;
        assert(t.g.producer(t.g.ins(a)[i]) == b);
    }
    if controls(t.g, a, b) {
        let (i, k) = choose|i: int, k: int|
            #![trigger t.g.outs(a)[i], t.g.ins(b)[k]]
            0 <= i < t.g.outs(a).len() && t.g.value_kind(t.g.outs(a)[i]) == ValueKind::Control && 0
                <= k < t.g.ins(b).len() && t.g.ins(b)[k] == t.g.outs(a)[i];
        assert(e.g.ins(b)[k] == e.g.outs(a)[i]);
        assert(controls(e.g, a, b));
    }
    if controls(e.g, a, b) && e.marks.live.contains(b) {
        let (i, k) = choose|i: int, k: int|
            #![trigger e.g.outs(a)[i], e.g.ins(b)[k]]
            0 <= i < e.g.outs(a).len() && e.g.value_kind(e.g.outs(a)[i]) == ValueKind::Control && 0
                <= k < e.g.ins(b).len() && e.g.ins(b)[k] == e.g.outs(a)[i];
        assert(t.g.ins(b) == e.g.ins(b));
        assert(t.g.ins(b)[k] == t.g.outs(a)[i]);
        assert(controls(t.g, a, b));
    }
}

/// After stock was taken anew, exactly what can be reached from the entry is
/// live.
pub proof fn law_resync_makes_live_reachable(f: &Function, e: Edit, roots: Seq<NodeId>, n: NodeId)
    requires
        f.wf(),
        e.g == f.g(),
        e.marks == populated(f),
        lists_set(roots, populated(f).roots),
    ensures
        ({
            let order = postorder_of(e.g, Set::full(), roots);
            let t = culled_upto(e, order, order.len() as int);
            t.marks.live.contains(n) <==> reachable(t.g, f.entry_node(), n)
        }),
{
    f.lemma_wf();
    let g = f.g();
    let entry = f.entry_node();
    let order = postorder_of(e.g, Set::full(), roots);
    let t = culled_upto(e, order, order.len() as int);
    assert forall|m: NodeId| #[trigger] e.marks.live.contains(m) implies g.has_node(m) by {
        lemma_reachable_node(g, entry, m);
    }
    assert(e.marks.roots.subset_of(e.marks.live));
    lemma_reachable_self(g, entry);
    law_cull(e, roots, entry);
    assert forall|m: NodeId| e.g.has_node(m) implies #[trigger] t.g.outs(m) == e.g.outs(m) by {
        law_cull(e, roots, m);
    }
    assert forall|m: NodeId| e.g.has_node(m) implies #[trigger] t.g.ins(m) == e.g.ins(m) || (
    t.g.ins(m).len() == 0 && !e.marks.live.contains(m)) by {
        law_cull(e, roots, m);
    }
    lemma_culled_values(e, order, order.len() as int);
    if reachable(t.g, entry, n) {
        let members = Set::new(|m: NodeId| reachable(g, entry, m));
        assert forall|a: NodeId, b: NodeId|
            members.contains(a) && #[trigger] steps_to(t.g, a, b) implies members.contains(b) by {
            assert(e.marks.live.contains(a));
            lemma_cull_steps(e, t, a, b);
            lemma_reachable_step(g, entry, a, b);
        }
        lemma_closed_holds_reachable(t.g, entry, n, members);
    }
    if reachable(g, entry, n) {
        lemma_reachable_self(t.g, entry);
        let members = Set::new(|m: NodeId| reachable(g, entry, m) && reachable(t.g, entry, m));
        assert forall|a: NodeId, b: NodeId|
            members.contains(a) && #[trigger] steps_to(g, a, b) implies members.contains(b) by {
            lemma_reachable_step(g, entry, a, b);
            assert(e.marks.live.contains(a) && e.marks.live.contains(b));
            lemma_cull_steps(e, t, a, b);
            lemma_reachable_step(t.g, entry, a, b);
        }
        lemma_closed_holds_reachable(g, entry, n, members);
    }
}

proof fn lemma_culled_values(e: Edit, order: Seq<NodeId>, k: int)
    ensures
        culled_upto(e, order, k).g.values == e.g.values,
    decreases k,
{
    if k > 0 {
        lemma_culled_values(e, order, k - 1);
        let f = culled_upto(e, order, k - 1);
        let x = order[k - 1];
        crate::graph::laws::lemma_unlinked_shape(f.g.evicted(x), f.g.slots(x));
    }
}

} // verus!
