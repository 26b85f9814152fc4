//! What each verb of an edit does to inputs, to the live nodes and to the
//! addresses behind nodes.

use super::clean::lemma_redirected_all;
use super::edit_function::populated;
use super::laws::{
    law_attach_revives_cone, law_attach_spares_control, lemma_orphaned, lemma_twin_outputs,
};
use super::model::{contributed, twin_of, values_at, Edit, Marks};
use crate::function::func::Function;
use crate::graph::laws::{law_readers_are_inputs, lemma_redirected_uses};
use crate::graph::model::GraphModel;
use crate::graph::walk::reachable;
use crate::node::{NodeId, NodeKind, UseId, ValueId, ValueKind};
use vstd::prelude::*;

verus! {

/// Replacing a value redirects every input that read it, and no other; no node
/// changes its kind or its outputs.
pub proof fn law_replace_value_redirects_every_reader(
    e: Edit,
    old_value: ValueId,
    new_value: ValueId,
    m: NodeId,
    i: int,
)
    requires
        e.g.valid(),
        e.g.has_value(old_value),
        e.g.has_value(new_value),
        e.g.has_node(m),
        0 <= i < e.g.ins(m).len(),
    ensures
        ({
            let t = e.replace_value(old_value, new_value);
            &&& t.g.kind(m) == e.g.kind(m)
            &&& t.g.outs(m) == e.g.outs(m)
            &&& t.g.ins(m).len() == e.g.ins(m).len()
            &&& e.g.ins(m)[i] == old_value ==> t.g.ins(m)[i] == new_value
            &&& e.g.ins(m)[i] != old_value ==> t.g.ins(m)[i] == e.g.ins(m)[i]
        }),
{
    let g = e.g;
    let us = g.readers(old_value);
    if old_value != new_value && us.len() > 0 {
        assert forall|k: int| 0 <= k < us.len() implies g.has_use(#[trigger] us[k]) && g.attached(
            us[k],
        ) by {
            assert(g.lists[old_value.0 as int][k] == us[k]);
            assert(g.reader_ok(old_value.0 as int, k));
        }
        lemma_redirected_all(g, us, new_value);
        let u = g.slots(m)[i];
        assert(g.nodes[m.0 as int].inputs[i] == u && g.slot_ok(m.0 as int, i));
        lemma_redirected_uses(g, us, new_value, u);
        if us.contains(u) {
            let k = us.index_of(u);
            assert(g.lists[old_value.0 as int][k] == u);
            assert(g.reader_ok(old_value.0 as int, k));
        }
    } else if old_value != new_value {
        assert(g.nodes[m.0 as int].inputs[i] == g.slots(m)[i] && g.slot_ok(m.0 as int, i));
        if g.ins(m)[i] == old_value {
            assert(us.contains(g.slots(m)[i]));
        }
    }
}

/// A node is merged into another one only if that has the same kind, inputs and
/// kinds of outputs; whatever read the node reads the other one then.
pub proof fn law_merge_moves_readers_to_a_twin(e: Edit, n: NodeId, m: NodeId, i: int)
    requires
        e.g.valid(),
        e.g.has_node(n),
        twin_of(e.g, n) is Some,
        e.g.has_node(m),
        0 <= i < e.g.ins(m).len(),
    ensures
        ({
            let twin = twin_of(e.g, n)->0;
            let t = e.canonicalize(n);
            &&& twin != n
            &&& e.g.kind(twin) == e.g.kind(n)
            &&& e.g.ins(twin) == e.g.ins(n)
            &&& e.g.out_kinds(twin) == e.g.out_kinds(n)
            &&& e.g.ins(m)[i] == e.g.outs(n)[0] ==> t.g.ins(m)[i] == e.g.outs(twin)[0]
            &&& e.g.ins(m)[i] != e.g.outs(n)[0] ==> t.g.ins(m)[i] == e.g.ins(m)[i]
        }),
{
    let g = e.g;
    let twin = twin_of(g, n)->0;
    lemma_twin_outputs(g, n);
    assert(g.entry_ok(g.key(n)));
    assert(g.nodes[n.0 as int].inputs.len() <= g.uses.len());
    assert(g.nodes[twin.0 as int].inputs.len() <= g.uses.len());
    crate::cache::law_key_identifies_structure(
        g.kind(n),
        g.ins(n),
        g.out_kinds(n),
        g.kind(twin),
        g.ins(twin),
        g.out_kinds(twin),
    );
    let f = Edit { marks: Marks { recanon: e.marks.recanon.remove(n), ..e.marks }, ..e };
    law_replace_value_redirects_every_reader(f, g.outs(n)[0], g.outs(twin)[0], m, i);
}

/// A computation with one output is merged whenever another node is known under
/// its structure.
pub proof fn law_twins_are_found(g: GraphModel, n: NodeId)
    requires
        g.outs(n).len() == 1,
        g.cache.contains_key(g.key(n)),
        g.cache[g.key(n)] != n.0,
        ({
            let kind = g.kind(n);
            kind is InitialMemory || kind is InitialVar || kind is FunctionArg || kind is Load
                || kind is MemProject || kind is MemUnion || kind is IntConst || kind is FloatConst
                || kind is BoolConst || kind is IntUnaryOp || kind is IntBinaryOp || kind is IntCmpOp
                || kind is BoolUnaryOp || kind is BoolBinaryOp || kind is FloatUnaryOp || kind
                is FloatBinaryOp || kind is FloatCmpOp || kind is Popcount || kind is Lzcount || kind
                is Truncate || kind is Extend || kind is CastToBool || kind is CastToInt || kind
                is CastToFloat || kind is IntToFloat || kind is FloatToInt || kind is FloatToFloat
                || kind is IntBitsToFloat || kind is FloatBitsToInt || kind is SegmentOp || kind
                is CPoolRef
        }),
    ensures
        twin_of(g, n) == Some(NodeId(g.cache[g.key(n)])),
{
}

/// What gains a reader is live afterwards, unless it steers control: then
/// nothing comes back to life.
pub proof fn law_gaining_a_reader_revives(m: Marks, g: GraphModel, v: ValueId)
    requires
        g.valid(),
        g.has_value(v),
    ensures
        ({
            let kind = g.kind(g.producer(v));
            let steers = kind is Entry || kind is Region || kind is ControlState || kind is If
                || kind is Switch || kind is Call || kind is CallOther || kind is Return || kind
                is IndirectBranch || kind is Unreachable;
            &&& !steers ==> m.attaching(g, v).live.contains(g.producer(v))
            &&& steers ==> m.attaching(g, v) == m
        }),
{
    if g.kind(g.producer(v)).control_flow() {
        law_attach_spares_control(m, g, v);
    } else {
        law_attach_revives_cone(m, g, v, g.producer(v), g.producer(v));
    }
}

/// What loses its last reader waits to be looked at if it is live and only
/// computes; what steers control or writes memory does not.
pub proof fn law_losing_the_last_reader(m: Marks, g: GraphModel, v: ValueId)
    ensures
        ({
            let n = g.producer(v);
            let kind = g.kind(n);
            let pinned = kind is Entry || kind is Region || kind is ControlState || kind is If
                || kind is Switch || kind is Call || kind is CallOther || kind is Return || kind
                is IndirectBranch || kind is Unreachable || kind is Store || kind is StackStore
                || kind is StackStorePhi;
            &&& g.readers(v).len() <= 1 && !pinned ==> m.detaching(g, v).killed.contains(n)
            &&& g.readers(v).len() <= 1 && !pinned && m.live.contains(n) ==> m.detaching(
                g,
                v,
            ).pending.contains(n)
            &&& g.readers(v).len() > 1 || pinned ==> m.detaching(g, v) == m
            &&& m.detaching(g, v).live == m.live
        }),
{
}

/// Redirecting the last reader of a value hands its addresses over to the new
/// producer; redirecting one of several hands over nothing.
pub proof fn law_redirect_hands_addresses_over(e: Edit, u: UseId, v: ValueId, a: u64)
    requires
        forall|n: NodeId| #[trigger] e.prints.contains_key(n),
    ensures
        ({
            let from = e.g.uses[u.0 as int].value;
            let t = e.redirect_input(u, v);
            &&& e.g.readers(from).len() == 1 ==> (t.prints[e.g.producer(v)].contains(a)
                <==> e.prints[e.g.producer(v)].contains(a) || e.prints[e.g.producer(
                from,
            )].contains(a))
            &&& e.g.readers(from).len() != 1 ==> t.prints == e.prints
            &&& forall|n: NodeId|
                n != e.g.producer(v) ==> #[trigger] t.prints[n] == e.prints[n]
        }),
{
}

/// A node that is created is live, and a root if it reads nothing; it has the
/// addresses of every contributor beside its own, and no other node's change.
pub proof fn law_created_node_takes_over_addresses(
    e: Edit,
    kind: NodeKind,
    inputs: Seq<ValueId>,
    outputs: Seq<ValueKind>,
    from: Seq<NodeId>,
    a: u64,
)
    requires
        forall|n: NodeId| #[trigger] e.prints.contains_key(n),
    ensures
        ({
            let n = e.g.created_id(kind, inputs, outputs);
            let t = e.create(kind, inputs, outputs, from);
            &&& t.marks.live.contains(n)
            &&& t.g.ins(n).len() == 0 ==> t.marks.roots.contains(n)
            &&& t.prints[n].contains(a) <==> e.prints[n].contains(a) || exists|i: int|
                0 <= i < from.len() && e.prints[#[trigger] from[i]].contains(a)
            &&& forall|m: NodeId| m != n ==> #[trigger] t.prints[m] == e.prints[m]
        }),
{
    lemma_contributed(e, from, from.len() as int, a);
}

proof fn lemma_contributed(e: Edit, from: Seq<NodeId>, k: int, a: u64)
    requires
        0 <= k <= from.len(),
    ensures
        contributed(e.prints, from, k).contains(a) <==> exists|i: int|
            0 <= i < k && e.prints[#[trigger] from[i]].contains(a),
    decreases k,
{
    if k > 0 {
        lemma_contributed(e, from, k - 1, a);
        if contributed(e.prints, from, k).contains(a) {
            if contributed(e.prints, from, k - 1).contains(a) {
                let i = choose|i: int| 0 <= i < k - 1 && e.prints[#[trigger] from[i]].contains(a);
                assert(e.prints[from[i]].contains(a));
            } else {
                assert(e.prints[from[k - 1]].contains(a));
            }
        }
    }
}

/// A computation whose inputs changed and that has no twin is the one that its
/// structure is shared by from then on: creating the structure gives it back.
pub proof fn law_changed_node_is_shared_again(e: Edit, n: NodeId)
    requires
        e.g.valid(),
        e.g.has_node(n),
        e.g.outs(n).len() == 1,
        twin_of(e.g, n) is None,
        ({
            let kind = e.g.kind(n);
            kind is InitialMemory || kind is InitialVar || kind is FunctionArg || kind is Load
                || kind is MemProject || kind is MemUnion || kind is IntConst || kind is FloatConst
                || kind is BoolConst || kind is IntUnaryOp || kind is IntBinaryOp || kind is IntCmpOp
                || kind is BoolUnaryOp || kind is BoolBinaryOp || kind is FloatUnaryOp || kind
                is FloatBinaryOp || kind is FloatCmpOp || kind is Popcount || kind is Lzcount || kind
                is Truncate || kind is Extend || kind is CastToBool || kind is CastToInt || kind
                is CastToFloat || kind is IntToFloat || kind is FloatToInt || kind is FloatToFloat
                || kind is IntBitsToFloat || kind is FloatBitsToInt || kind is SegmentOp || kind
                is CPoolRef
        }),
    ensures
        ({
            let t = e.canonicalize(n);
            &&& t.g.created_id(e.g.kind(n), e.g.ins(n), e.g.out_kinds(n)) == n
            &&& t.g.ins(n) == e.g.ins(n)
            &&& t.marks.live == e.marks.live
        }),
{
    let t = e.canonicalize(n);
    assert(t.g.ins(n) =~= e.g.ins(n));
}

/// Every live node that read a replaced value waits to be looked at: it may
/// have become the twin of another.
pub proof fn law_readers_of_a_replaced_value_wait(
    e: Edit,
    old_value: ValueId,
    new_value: ValueId,
    m: NodeId,
    i: u32,
)
    requires
        e.g.valid(),
        e.g.has_value(old_value),
        e.g.has_value(new_value),
        old_value != new_value,
        e.g.has_node(m),
        e.marks.live.contains(m),
        i < e.g.ins(m).len(),
        e.g.ins(m)[i as int] == old_value,
    ensures
        e.replace_all_uses(old_value, new_value).marks.pending.contains(m),
        e.replace_all_uses(old_value, new_value).marks.recanon.contains(m),
{
    let ps = e.g.reader_positions(old_value);
    law_readers_are_inputs(e.g, old_value, m, i);
    let k = ps.index_of((m, i));
    let marks = e.marks.attaching(e.g, new_value);
    lemma_flagged(marks, ps, ps.len() as int, k);
}

proof fn lemma_flagged(m: Marks, ps: Seq<(NodeId, u32)>, k: int, j: int)
    requires
        0 <= j < k <= ps.len(),
        m.live.contains(ps[j].0),
    ensures
        m.flag_readers(ps, k).pending.contains(ps[j].0),
        m.flag_readers(ps, k).recanon.contains(ps[j].0),
        m.flag_readers(ps, k).live == m.live,
    decreases k,
{
    super::laws::lemma_flag_readers_sets(m, ps, k - 1);
    if j < k - 1 {
        lemma_flagged(m, ps, k - 1, j);
    }
}

/// A redirected input's node waits to be looked at, if it is live.
pub proof fn law_redirected_node_waits(e: Edit, u: UseId, v: ValueId)
    requires
        e.g.uses[u.0 as int].value != v,
        e.marks.live.contains(e.g.uses[u.0 as int].node),
    ensures
        e.update_input(u, v).marks.pending.contains(e.g.uses[u.0 as int].node),
        e.update_input(u, v).marks.recanon.contains(e.g.uses[u.0 as int].node),
{
}

/// A computation that comes back to life waits to be looked at: it may have a
/// twin by now.
pub proof fn law_revived_computation_waits(m: Marks, g: GraphModel, v: ValueId)
    requires
        g.valid(),
        g.has_value(v),
        !m.live.contains(g.producer(v)),
        ({
            let kind = g.kind(g.producer(v));
            kind is InitialMemory || kind is InitialVar || kind is FunctionArg || kind is Load
                || kind is MemProject || kind is MemUnion || kind is IntConst || kind is FloatConst
                || kind is BoolConst || kind is IntUnaryOp || kind is IntBinaryOp || kind is IntCmpOp
                || kind is BoolUnaryOp || kind is BoolBinaryOp || kind is FloatUnaryOp || kind
                is FloatBinaryOp || kind is FloatCmpOp || kind is Popcount || kind is Lzcount || kind
                is Truncate || kind is Extend || kind is CastToBool || kind is CastToInt || kind
                is CastToFloat || kind is IntToFloat || kind is FloatToInt || kind is FloatToFloat
                || kind is IntBitsToFloat || kind is FloatBitsToInt || kind is SegmentOp || kind
                is CPoolRef
        }),
    ensures
        m.attaching(g, v).live.contains(g.producer(v)),
        m.attaching(g, v).pending.contains(g.producer(v)),
        m.attaching(g, v).recanon.contains(g.producer(v)),
{
    let n = g.producer(v);
    assert(g.value_ok(v.0 as int));
    let p = seq![n];
    assert(super::model::is_revival(g, m.live, p) && p[0] == n && p.last() == n);
}

/// A node that gains its first input is a root no more, and what it reads comes
/// to life.
pub proof fn law_first_input_ends_a_root(e: Edit, n: NodeId, v: ValueId)
    requires
        e.g.valid(),
        e.g.has_node(n),
        e.g.has_value(v),
        e.g.has_room(0, 1, 0),
    ensures
        ({
            let t = e.add_input(n, v);
            &&& t.g.ins(n) == e.g.ins(n).push(v)
            &&& e.g.ins(n).len() == 0 ==> !t.marks.roots.contains(n)
            &&& e.marks.live.subset_of(t.marks.live)
            &&& forall|m: NodeId|
                m != n && e.marks.roots.contains(m) ==> #[trigger] t.marks.roots.contains(m)
            &&& t.prints == e.prints
        }),
{
    crate::graph::reader_laws::law_newest_reader_comes_first(e.g, n, v, v);
}

/// A new edit takes everything that can be reached for live, what of it reads
/// nothing for a root, and has nothing waiting.
pub proof fn law_new_edit(f: &Function, n: NodeId)
    ensures
        populated(f).live.contains(n) <==> reachable(f.g(), f.entry_node(), n),
        populated(f).roots.contains(n) <==> reachable(f.g(), f.entry_node(), n) && f.g().ins(n).len()
            == 0,
        !populated(f).pending.contains(n),
        !populated(f).killed.contains(n),
        !populated(f).recanon.contains(n),
{
}

/// A killed node leaves the live operands that nobody reads any more waiting,
/// unless they steer control or write memory.
pub proof fn law_orphaned_operand_waits(e: Edit, n: NodeId, j: int)
    requires
        e.g.valid(),
        e.g.has_node(n),
        0 <= j < e.g.ins(n).len(),
        e.g.producer(e.g.ins(n)[j]) != n,
        e.marks.live.contains(e.g.producer(e.g.ins(n)[j])),
        e.kill(n).g.readers(e.g.ins(n)[j]).len() == 0,
        ({
            let kind = e.g.kind(e.g.producer(e.g.ins(n)[j]));
            kind is Phi || kind is MemPhi || kind is New ||
            kind is InitialMemory || kind is InitialVar || kind is FunctionArg || kind is Load
                || kind is MemProject || kind is MemUnion || kind is IntConst || kind is FloatConst
                || kind is BoolConst || kind is IntUnaryOp || kind is IntBinaryOp || kind is IntCmpOp
                || kind is BoolUnaryOp || kind is BoolBinaryOp || kind is FloatUnaryOp || kind
                is FloatBinaryOp || kind is FloatCmpOp || kind is Popcount || kind is Lzcount || kind
                is Truncate || kind is Extend || kind is CastToBool || kind is CastToInt || kind
                is CastToFloat || kind is IntToFloat || kind is FloatToInt || kind is FloatToFloat
                || kind is IntBitsToFloat || kind is FloatBitsToInt || kind is SegmentOp || kind
                is CPoolRef
        }),
    ensures
        e.kill(n).marks.killed.contains(e.g.producer(e.g.ins(n)[j])),
        e.kill(n).marks.pending.contains(e.g.producer(e.g.ins(n)[j])),
{
    let g = e.g.detached(n);
    let vs = e.g.ins(n);
    crate::graph::laws::lemma_unlinked_shape(e.g.evicted(n), e.g.slots(n));
    super::laws::law_kill(e, n, n);
    assert(e.g.nodes[n.0 as int].inputs[j] == e.g.slots(n)[j] && e.g.slot_ok(n.0 as int, j));
    assert(e.g.value_ok(vs[j].0 as int));
    assert(g.producer(vs[j]) == e.g.producer(vs[j]));
    assert(g.kind(g.producer(vs[j])) == e.g.kind(g.producer(vs[j])));
    lemma_orphaned(e.marks.without(n), g, vs, vs.len() as int, j);
}

/// An input that is taken out leaves its producer waiting, if nobody reads the
/// value any more and the producer only computes.
pub proof fn law_removed_operand_waits(e: Edit, n: NodeId, listed: Seq<usize>, k: int)
    requires
        0 <= k < listed.len(),
        listed[k] < e.g.ins(n).len(),
        ({
            let v = e.g.ins(n)[listed[k] as int];
            let h = e.g.without_inputs_from(n, listed, 0);
            let kind = h.kind(h.producer(v));
            &&& h.readers(v).len() == 0
            &&& e.marks.live.contains(h.producer(v))
            &&& kind is Phi || kind is MemPhi || kind is New || kind is InitialMemory || kind
                is InitialVar || kind is FunctionArg || kind is Load || kind is MemProject || kind
                is MemUnion || kind is IntConst || kind is FloatConst || kind is BoolConst || kind
                is IntUnaryOp || kind is IntBinaryOp || kind is IntCmpOp || kind is BoolUnaryOp
                || kind is BoolBinaryOp || kind is FloatUnaryOp || kind is FloatBinaryOp || kind
                is FloatCmpOp || kind is Popcount || kind is Lzcount || kind is Truncate || kind
                is Extend || kind is CastToBool || kind is CastToInt || kind is CastToFloat || kind
                is IntToFloat || kind is FloatToInt || kind is FloatToFloat || kind
                is IntBitsToFloat || kind is FloatBitsToInt || kind is SegmentOp || kind is CPoolRef
        }),
    ensures
        ({
            let v = e.g.ins(n)[listed[k] as int];
            let t = e.remove_inputs(n, listed);
            t.marks.killed.contains(t.g.producer(v)) && t.marks.pending.contains(t.g.producer(v))
        }),
{
    let h = e.g.without_inputs_from(n, listed, 0);
    let vs = values_at(e.g.ins(n), listed, listed.len() as int);
    let j = lemma_value_at(e.g.ins(n), listed, listed.len() as int, k);
    lemma_orphaned(e.marks, h, vs, vs.len() as int, j);
}

proof fn lemma_value_at(vs: Seq<ValueId>, listed: Seq<usize>, n: int, k: int) -> (j: int)
    requires
        0 <= k < n <= listed.len(),
        listed[k] < vs.len(),
    ensures
        0 <= j < values_at(vs, listed, n).len(),
        values_at(vs, listed, n)[j] == vs[listed[k] as int],
    decreases n,
{
    if k == n - 1 {
        values_at(vs, listed, n - 1).len() as int
    } else {
        lemma_value_at(vs, listed, n - 1, k)
    }
}

} // verus!
