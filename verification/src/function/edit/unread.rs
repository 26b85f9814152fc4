//! What becomes of a computation that nothing reads any more, by the name of
//! its kind.

use super::clean::lemma_redirected_all;
use super::laws::{
    dead_wait, law_clean_keeps_side_effects, law_clean_leaves_nothing_dead, law_kill, law_replace_value_keeps_dead_waiting,
    lemma_twin_outputs, marks_nodes,
};
use super::model::{clean_step, cleans_to, is_run, twin_of, Edit};
use crate::node::{NodeId, ValueId};
use vstd::prelude::*;

verus! {

/// After cleaning up, every live node that only computes something is read by
/// some input: the constants, arithmetic, comparisons, width changes,
/// conversions, loads and phis that lost their last reader are gone.
pub proof fn law_clean_leaves_no_unread_computation(a: Edit, b: Edit, n: NodeId)
    requires
        cleans_to(a, b),
        a.g.valid(),
        marks_nodes(a),
        dead_wait(a),
        ({
            let kind = b.g.kind(n);
            kind is InitialMemory || kind is InitialVar || kind is FunctionArg || kind is MemPhi
                || kind is Phi || kind is Load || kind is MemProject || kind is MemUnion || kind
                is IntConst || kind is FloatConst || kind is BoolConst || kind is IntUnaryOp || kind
                is IntBinaryOp || kind is IntCmpOp || kind is BoolUnaryOp || kind is BoolBinaryOp
                || kind is FloatUnaryOp || kind is FloatBinaryOp || kind is FloatCmpOp || kind
                is Popcount || kind is Lzcount || kind is Truncate || kind is Extend || kind
                is CastToBool || kind is CastToInt || kind is CastToFloat || kind is IntToFloat
                || kind is FloatToInt || kind is FloatToFloat || kind is IntBitsToFloat || kind
                is FloatBitsToInt || kind is SegmentOp || kind is CPoolRef || kind is New
        }),
    ensures
        b.marks.live.contains(n) ==> exists|i: int|
            0 <= i < b.g.outs(n).len() && b.g.readers(#[trigger] b.g.outs(n)[i]).len() > 0,
{
    law_clean_leaves_nothing_dead(a, b, n);
}

/// Cleaning up never kills a live node that steers control or writes memory,
/// read or not.
pub proof fn law_clean_keeps_effects(a: Edit, b: Edit, n: NodeId)
    requires
        cleans_to(a, b),
        marks_nodes(a),
        a.marks.live.contains(n),
        ({
            let kind = a.g.kind(n);
            kind is Entry || kind is Region || kind is ControlState || kind is If || kind is Switch
                || kind is Call || kind is CallOther || kind is Return || kind is IndirectBranch
                || kind is Unreachable || kind is Store || kind is StackStore || kind
                is StackStorePhi
        }),
    ensures
        b.marks.live.contains(n),
        b.g.kind(n) == a.g.kind(n),
{
    law_clean_keeps_side_effects(a, b, n);
}

/// Replacing the only value of a computation that is read puts the computation
/// in line, and looking at it kills it: it is not live any more, reads nothing,
/// and nothing reads it.
pub proof fn law_replaced_computation_is_killed(e: Edit, old_value: ValueId, new_value: ValueId)
    requires
        e.g.valid(),
        marks_nodes(e),
        dead_wait(e),
        e.g.has_value(old_value),
        e.g.has_value(new_value),
        e.g.producer(old_value) != e.g.producer(new_value),
        e.marks.live.contains(e.g.producer(old_value)),
        forall|i: int|
            0 <= i < e.g.outs(e.g.producer(old_value)).len() && #[trigger] e.g.outs(
                e.g.producer(old_value),
            )[i] != old_value ==> e.g.readers(e.g.outs(e.g.producer(old_value))[i]).len() == 0,
        ({
            let kind = e.g.kind(e.g.producer(old_value));
            kind is InitialMemory || kind is InitialVar || kind is FunctionArg || kind is MemPhi
                || kind is Phi || kind is Load || kind is MemProject || kind is MemUnion || kind
                is IntConst || kind is FloatConst || kind is BoolConst || kind is IntUnaryOp || kind
                is IntBinaryOp || kind is IntCmpOp || kind is BoolUnaryOp || kind is BoolBinaryOp
                || kind is FloatUnaryOp || kind is FloatBinaryOp || kind is FloatCmpOp || kind
                is Popcount || kind is Lzcount || kind is Truncate || kind is Extend || kind
                is CastToBool || kind is CastToInt || kind is CastToFloat || kind is IntToFloat
                || kind is FloatToInt || kind is FloatToFloat || kind is IntBitsToFloat || kind
                is FloatBitsToInt || kind is SegmentOp || kind is CPoolRef || kind is New
        }),
    ensures
        ({
            let n = e.g.producer(old_value);
            let t = e.replace_value(old_value, new_value);
            &&& t.marks.live.contains(n)
            &&& t.marks.pending.contains(n)
            &&& forall|i: int|
                0 <= i < t.g.outs(n).len() ==> t.g.readers(#[trigger] t.g.outs(n)[i]).len() == 0
            &&& !t.examine(n).marks.live.contains(n)
            &&& t.examine(n).g.ins(n).len() == 0
        }),
{
    let g = e.g;
    let n = g.producer(old_value);
    let t = e.replace_value(old_value, new_value);
    law_replace_value_keeps_dead_waiting(e, old_value, new_value);
    assert(g.value_ok(old_value.0 as int) && g.value_ok(new_value.0 as int));
    let us = g.readers(old_value);
    if us.len() > 0 {
        assert forall|i: int| 0 <= i < us.len() implies g.has_use(#[trigger] us[i]) && g.attached(
            us[i],
        ) by {
            assert(g.lists[old_value.0 as int][i] == us[i]);
            assert(g.reader_ok(old_value.0 as int, i));
        }
        lemma_redirected_all(g, us, new_value);
        let ps = g.reader_positions(old_value);
        super::laws::lemma_flag_readers_sets(
            e.marks.attaching(g, new_value),
            ps,
            ps.len() as int,
        );
        lemma_drained(g, old_value, new_value);
    }
    assert forall|i: int| 0 <= i < t.g.outs(n).len() implies t.g.readers(
        #[trigger] t.g.outs(n)[i],
    ).len() == 0 by {
        let w = g.outs(n)[i];
        assert(g.nodes[n.0 as int].outputs[i] == w && g.output_ok(n.0 as int, i));
        if w != old_value {
            assert(g.readers(w).len() == 0);
        }
    }
    let f = Edit {
        marks: super::model::Marks {
            killed: t.marks.killed.remove(n),
            pending: t.marks.pending.remove(n),
            ..t.marks
        },
        ..t
    };
    law_kill(f, n, n);
}

/// A value whose uses were all redirected has none left.
proof fn lemma_drained(g: crate::graph::model::GraphModel, old_value: ValueId, new_value: ValueId)
    requires
        g.valid(),
        g.has_value(old_value),
        g.has_value(new_value),
        old_value != new_value,
    ensures
        g.redirected_all(g.readers(old_value), new_value).readers(old_value).len() == 0,
{
    let us = g.readers(old_value);
    assert forall|i: int| 0 <= i < us.len() implies g.has_use(#[trigger] us[i]) && g.attached(
        us[i],
    ) by {
        assert(g.lists[old_value.0 as int][i] == us[i]);
        assert(g.reader_ok(old_value.0 as int, i));
    }
    lemma_redirected_all(g, us, new_value);
    let h = g.redirected_all(us, new_value);
    if h.readers(old_value).len() > 0 {
        let u = h.lists[old_value.0 as int][0];
        assert(h.reader_ok(old_value.0 as int, 0));
        assert(h.attached(u));
        assert(g.attached(u)) by {
            let d = h.uses[u.0 as int];
            assert(g.nodes[d.node.0 as int].inputs[d.index as int] == u);
            assert(g.slot_ok(d.node.0 as int, d.index as int));
        }
        crate::graph::laws::lemma_redirected_uses(g, us, new_value, u);
        let d = g.uses[u.0 as int];
        assert(g.nodes[d.node.0 as int].inputs[d.index as int] == u);
        assert(g.slot_ok(d.node.0 as int, d.index as int));
        assert(us.contains(u));
    }
}

/// A node that cleaning up took out of the live ones reads nothing.
pub proof fn law_cleaned_out_nodes_read_nothing(a: Edit, b: Edit, n: NodeId)
    requires
        cleans_to(a, b),
        a.g.valid(),
        marks_nodes(a),
        dead_wait(a),
        a.marks.live.contains(n),
    ensures
        b.marks.live.contains(n) || b.g.ins(n).len() == 0,
{
    let run = choose|run: Seq<Edit>| #[trigger]
        is_run(run) && run[0] == a && run.last() == b && b.marks.pending =~= Set::empty();
    lemma_run_reads(run, run.len() - 1, n);
}

proof fn lemma_run_reads(run: Seq<Edit>, k: int, n: NodeId)
    requires
        is_run(run),
        0 <= k < run.len(),
        run[0].g.valid(),
        marks_nodes(run[0]),
        dead_wait(run[0]),
        run[0].marks.live.contains(n),
    ensures
        run[k].g.valid(),
        run[k].g.has_node(n),
        marks_nodes(run[k]),
        run[k].marks.live.contains(n) || run[k].g.slots(n).len() == 0,
    decreases k,
{
    super::laws::lemma_run_dead_wait(run, k);
    if k > 0 {
        lemma_run_reads(run, k - 1, n);
        assert(clean_step(run[k - 1], run[k]));
        let e = run[k - 1];
        let x = choose|x: NodeId| e.marks.pending.contains(x) && run[k] == #[trigger] e.examine(x);
        super::laws::lemma_examine_keeps(e, x, n);
        let f = Edit {
            marks: super::model::Marks {
                killed: e.marks.killed.remove(x),
                pending: e.marks.pending.remove(x),
                ..e.marks
            },
            ..e
        };
        law_kill(f, x, n);
        assert(f.kill(x).g.slots(n).len() == f.kill(x).g.ins(n).len());
        assert(f.g.slots(n).len() == f.g.ins(n).len());
        if let Some(twin) = twin_of(e.g, x) {
            lemma_twin_outputs(e.g, x);
            let (from, to) = (e.g.outs(x)[0], e.g.outs(twin)[0]);
            super::laws::lemma_redirected_all_nodes(e.g, e.g.readers(from), to);
            let ps = e.g.reader_positions(from);
            let m = super::model::Marks { recanon: f.marks.recanon.remove(x), ..f.marks };
            super::laws::lemma_flag_readers_sets(m.attaching(e.g, to), ps, ps.len() as int);
        }
    }
}

} // verus!
