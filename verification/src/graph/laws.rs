//! What holds of the graph across its operations.

use super::model::{
    drop_use, kept_from, lemma_cache_of_first, lemma_cached_valid, lemma_with_input_valid,
    lemma_with_node_valid, lemma_with_output_valid, lemma_without_input_valid, GraphModel,
};
use super::compact::{kept_node, retained, NodeIdRemap};
use super::walk::{
    controls, feeds, is_path, law_walk_order, lemma_reachable_node, lemma_reachable_self,
    lemma_reachable_step, reachable, steps_to, walk_order,
};
use crate::cache::{law_key_identifies_structure, node_key};
use crate::entity_set::{lemma_distinct_bounded, lemma_distinct_ints};
use crate::node::{NodeId, NodeKind, UseId, ValueId, ValueKind};
use vstd::prelude::*;

verus! {

/// No cache entry speaks of `n`.
spec fn unlisted(g: GraphModel, n: NodeId) -> bool {
    forall|key: Seq<u64>| #[trigger] g.cache.contains_key(key) ==> g.cache[key] != n.0
}

/// Nothing but `n` changed; values and slots were added at most.
spec fn others_kept(g: GraphModel, h: GraphModel, n: NodeId) -> bool {
    &&& g.values.len() <= h.values.len()
    &&& g.uses.len() <= h.uses.len()
    &&& forall|m: int| 0 <= m < g.nodes.len() && m != n.0 ==> #[trigger] h.nodes[m] == g.nodes[m]
    &&& forall|v: int| 0 <= v < g.values.len() ==> #[trigger] h.values[v] == g.values[v]
    &&& forall|u: int| 0 <= u < g.uses.len() ==> #[trigger] h.uses[u] == g.uses[u]
}

proof fn lemma_with_inputs(g: GraphModel, n: NodeId, vs: Seq<ValueId>)
    requires
        g.valid(),
        g.has_node(n),
        g.has_room(0, vs.len() as int, 0),
        forall|i: int| 0 <= i < vs.len() ==> g.has_value(#[trigger] vs[i]),
        unlisted(g, n),
    ensures
        ({
            let h = g.with_inputs(n, vs);
            &&& h.valid()
            &&& h.ins(n) == g.ins(n) + vs
            &&& h.out_kinds(n) == g.out_kinds(n)
            &&& h.kind(n) == g.kind(n)
            &&& h.nodes.len() == g.nodes.len()
            &&& h.values == g.values
            &&& h.uses.len() == g.uses.len() + vs.len()
            &&& h.cache == g.cache
            &&& others_kept(g, h, n)
        }),
    decreases vs.len(),
{
    if vs.len() == 0 {
        assert(g.ins(n) + vs =~= g.ins(n));
    } else {
        let rest = vs.drop_last();
        assert forall|i: int| 0 <= i < rest.len() implies g.has_value(#[trigger] rest[i]) by {
            assert(rest[i] == vs[i]);
        }
        lemma_with_inputs(g, n, rest);
        assert(g.has_value(vs[vs.len() - 1]));
        let h = g.with_inputs(n, rest);
        assert(unlisted(h, n));
        lemma_with_input_valid(h, n, vs.last());
        assert(g.ins(n) + vs =~= (g.ins(n) + rest).push(vs.last()));
    }
}

proof fn lemma_with_outputs(g: GraphModel, n: NodeId, kinds: Seq<ValueKind>)
    requires
        g.valid(),
        g.has_node(n),
        g.has_room(0, 0, kinds.len() as int),
        unlisted(g, n),
    ensures
        ({
            let h = g.with_outputs(n, kinds);
            &&& h.valid()
            &&& h.ins(n) == g.ins(n)
            &&& h.out_kinds(n) == g.out_kinds(n) + kinds
            &&& h.kind(n) == g.kind(n)
            &&& h.nodes.len() == g.nodes.len()
            &&& h.values.len() == g.values.len() + kinds.len()
            &&& h.uses == g.uses
            &&& h.cache == g.cache
            &&& others_kept(g, h, n)
        }),
    decreases kinds.len(),
{
    if kinds.len() == 0 {
        assert(g.out_kinds(n) + kinds =~= g.out_kinds(n));
    } else {
        lemma_with_outputs(g, n, kinds.drop_last());
        let h = g.with_outputs(n, kinds.drop_last());
        assert(unlisted(h, n));
        lemma_with_output_valid(h, n, kinds.last());
        assert(g.out_kinds(n) + kinds =~= (g.out_kinds(n) + kinds.drop_last()).push(kinds.last()));
    }
}

/// A fresh node has the structure that was asked for.
proof fn lemma_with_fresh(
    g: GraphModel,
    kind: NodeKind,
    inputs: Seq<ValueId>,
    outputs: Seq<ValueKind>,
)
    requires
        g.valid(),
        g.has_room(1, inputs.len() as int, outputs.len() as int),
        forall|i: int| 0 <= i < inputs.len() ==> g.has_value(#[trigger] inputs[i]),
    ensures
        ({
            let h = g.with_fresh(kind, inputs, outputs);
            let n = NodeId(g.nodes.len() as u32);
            &&& h.valid()
            &&& h.extends(g)
            &&& h.nodes.len() == g.nodes.len() + 1
            &&& h.kind(n) == kind
            &&& h.ins(n) == inputs
            &&& h.out_kinds(n) == outputs
            &&& h.cache == if kind.cacheable() {
                g.cache.insert(node_key(kind, inputs, outputs), n.0)
            } else {
                g.cache
            }
        }),
{
    let n = NodeId(g.nodes.len() as u32);
    let a = g.with_node(kind);
    lemma_with_node_valid(g, kind);
    assert forall|key: Seq<u64>| #[trigger] a.cache.contains_key(key) implies a.cache[key]
        != n.0 by {
        assert(g.entry_ok(key));
    }
    assert(a.ins(n) =~= Seq::<ValueId>::empty());
    assert(a.out_kinds(n) =~= Seq::<ValueKind>::empty());
    lemma_with_inputs(a, n, inputs);
    let b = a.with_inputs(n, inputs);
    assert(a.ins(n) + inputs =~= inputs);
    assert(unlisted(b, n));
    lemma_with_outputs(b, n, outputs);
    let c = b.with_outputs(n, outputs);
    assert(b.out_kinds(n) + outputs =~= outputs);
    if kind.cacheable() {
        lemma_cached_valid(c, n);
        let h = c.cached(n);
        assert(h.ins(n) =~= c.ins(n));
        assert(h.out_kinds(n) =~= c.out_kinds(n));
    }
}

/// What creating a node that is not there adds.
pub(crate) proof fn lemma_created_sizes(
    g: GraphModel,
    kind: NodeKind,
    inputs: Seq<ValueId>,
    outputs: Seq<ValueKind>,
)
    requires
        g.valid(),
        g.has_room(1, inputs.len() as int, outputs.len() as int),
        forall|i: int| 0 <= i < inputs.len() ==> g.has_value(#[trigger] inputs[i]),
        !g.shares(kind, inputs, outputs),
    ensures
        ({
            let h = g.created(kind, inputs, outputs);
            &&& h.valid()
            &&& h.extends(g)
            &&& h.nodes.len() == g.nodes.len() + 1
            &&& h.uses.len() == g.uses.len() + inputs.len()
            &&& h.values.len() == g.values.len() + outputs.len()
        }),
{
    lemma_with_fresh(g, kind, inputs, outputs);
    let n = NodeId(g.nodes.len() as u32);
    lemma_with_inputs_sizes(g.with_node(kind), n, inputs);
    lemma_with_outputs_sizes(g.with_node(kind).with_inputs(n, inputs), n, outputs);
}

proof fn lemma_with_inputs_sizes(g: GraphModel, n: NodeId, vs: Seq<ValueId>)
    ensures
        g.with_inputs(n, vs).uses.len() == g.uses.len() + vs.len(),
        g.with_inputs(n, vs).values.len() == g.values.len(),
    decreases vs.len(),
{
    if vs.len() > 0 {
        lemma_with_inputs_sizes(g, n, vs.drop_last());
    }
}

proof fn lemma_with_outputs_sizes(g: GraphModel, n: NodeId, kinds: Seq<ValueKind>)
    ensures
        g.with_outputs(n, kinds).uses.len() == g.uses.len(),
        g.with_outputs(n, kinds).values.len() == g.values.len() + kinds.len(),
    decreases kinds.len(),
{
    if kinds.len() > 0 {
        lemma_with_outputs_sizes(g, n, kinds.drop_last());
    }
}

/// Creating a node keeps the graph valid and what it held, and the node has the
/// structure that was asked for.
pub proof fn law_create_keeps_validity(
    g: GraphModel,
    kind: NodeKind,
    inputs: Seq<ValueId>,
    outputs: Seq<ValueKind>,
)
    requires
        g.valid(),
        g.has_room(1, inputs.len() as int, outputs.len() as int),
        forall|i: int| 0 <= i < inputs.len() ==> g.has_value(#[trigger] inputs[i]),
    ensures
        ({
            let h = g.created(kind, inputs, outputs);
            let n = g.created_id(kind, inputs, outputs);
            &&& h.valid()
            &&& h.extends(g)
            &&& h.has_node(n)
            &&& h.kind(n) == kind
            &&& h.ins(n) == inputs
            &&& h.out_kinds(n) == outputs
        }),
{
    if g.shares(kind, inputs, outputs) {
        let key = node_key(kind, inputs, outputs);
        let n = NodeId(g.cache[key]);
        assert(g.entry_ok(key));
        assert(g.nodes[n.0 as int].inputs.len() <= g.uses.len());
        law_key_identifies_structure(
            kind,
            inputs,
            outputs,
            g.kind(n),
            g.ins(n),
            g.out_kinds(n),
        );
    } else {
        lemma_with_fresh(g, kind, inputs, outputs);
    }
}

/// A structure of a shared kind is made once: creating it again returns the
/// same node and changes nothing.
pub proof fn law_shared_structure_is_made_once(
    g: GraphModel,
    kind: NodeKind,
    inputs: Seq<ValueId>,
    outputs: Seq<ValueKind>,
)
    requires
        g.valid(),
        g.has_room(1, inputs.len() as int, outputs.len() as int),
        forall|i: int| 0 <= i < inputs.len() ==> g.has_value(#[trigger] inputs[i]),
        kind.cacheable(),
    ensures
        ({
            let h = g.created(kind, inputs, outputs);
            &&& h.created_id(kind, inputs, outputs) == g.created_id(kind, inputs, outputs)
            &&& h.created(kind, inputs, outputs) == h
        }),
{
    if !g.shares(kind, inputs, outputs) {
        lemma_with_fresh(g, kind, inputs, outputs);
    }
}

/// Nodes of a kind that is not shared are always fresh.
pub proof fn law_unshared_node_is_fresh(
    g: GraphModel,
    kind: NodeKind,
    inputs: Seq<ValueId>,
    outputs: Seq<ValueKind>,
)
    requires
        g.valid(),
        g.has_room(1, inputs.len() as int, outputs.len() as int),
        forall|i: int| 0 <= i < inputs.len() ==> g.has_value(#[trigger] inputs[i]),
        !kind.cacheable(),
    ensures
        ({
            let h = g.created(kind, inputs, outputs);
            let n = g.created_id(kind, inputs, outputs);
            &&& !g.has_node(n)
            &&& h.has_node(n)
            &&& h.nodes.len() < u32::MAX ==> h.created_id(kind, inputs, outputs) != n
        }),
{
    lemma_with_fresh(g, kind, inputs, outputs);
}

/// Different structures are different nodes: a change in the kind, in one
/// input or in one output kind is enough.
pub proof fn law_different_structures_differ(
    g: GraphModel,
    k1: NodeKind,
    i1: Seq<ValueId>,
    o1: Seq<ValueKind>,
    k2: NodeKind,
    i2: Seq<ValueId>,
    o2: Seq<ValueKind>,
)
    requires
        g.valid(),
        g.has_room(2, (i1.len() + i2.len()) as int, (o1.len() + o2.len()) as int),
        forall|i: int| 0 <= i < i1.len() ==> g.has_value(#[trigger] i1[i]),
        forall|i: int| 0 <= i < i2.len() ==> g.has_value(#[trigger] i2[i]),
        k1 != k2 || i1 != i2 || o1 != o2,
    ensures
        g.created(k1, i1, o1).created_id(k2, i2, o2) != g.created_id(k1, i1, o1),
{
    let h = g.created(k1, i1, o1);
    let n = g.created_id(k1, i1, o1);
    law_create_keeps_validity(g, k1, i1, o1);
    if h.shares(k2, i2, o2) {
        let key = node_key(k2, i2, o2);
        assert(h.entry_ok(key));
        if NodeId(h.cache[key]) == n {
            assert(h.key(n) == key);
            law_key_identifies_structure(k1, i1, o1, k2, i2, o2);
        }
    }
}

/// The use lists say exactly which inputs read a value.
pub proof fn law_readers_are_inputs(g: GraphModel, v: ValueId, n: NodeId, i: u32)
    requires
        g.valid(),
        g.has_value(v),
    ensures
        g.reader_positions(v).contains((n, i)) <==> g.has_node(n) && i < g.ins(n).len() && g.ins(
            n,
        )[i as int] == v,
        g.reader_positions(v).no_duplicates(),
{
    let ps = g.reader_positions(v);
    if ps.contains((n, i)) {
        let j = ps.index_of((n, i));
        assert(g.lists[v.0 as int][j] == g.readers(v)[j]);
        assert(g.reader_ok(v.0 as int, j));
    }
    if g.has_node(n) && i < g.ins(n).len() && g.ins(n)[i as int] == v {
        assert(g.nodes[n.0 as int].inputs[i as int] == g.slots(n)[i as int]);
        assert(g.slot_ok(n.0 as int, i as int));
        let u = g.slots(n)[i as int];
        assert(g.lists[v.0 as int].contains(u));
        let j = g.readers(v).index_of(u);
        assert(ps[j] == (n, i));
    }
    assert forall|a: int, b: int| 0 <= a < ps.len() && 0 <= b < ps.len() && a != b implies ps[a]
        != ps[b] by {
        assert(g.lists[v.0 as int][a] == g.readers(v)[a]);
        assert(g.lists[v.0 as int][b] == g.readers(v)[b]);
        assert(g.reader_ok(v.0 as int, a) && g.reader_ok(v.0 as int, b));
        assert(g.lists[v.0 as int].no_duplicates());
    }
}

/// Redirecting a slot changes what that one input reads, and nothing else that
/// a node reads or defines.
pub proof fn law_redirect_changes_one_input(
    g: GraphModel,
    u: UseId,
    v: ValueId,
    n: NodeId,
    i: int,
)
    requires
        g.valid(),
        g.has_use(u),
        g.attached(u),
        g.has_value(v),
        g.has_node(n),
        0 <= i < g.ins(n).len(),
    ensures
        g.redirected(u, v).ins(n).len() == g.ins(n).len(),
        g.redirected(u, v).ins(n)[i] == if g.slots(n)[i] == u {
            v
        } else {
            g.ins(n)[i]
        },
        g.redirected(u, v).nodes == g.nodes,
        g.redirected(u, v).values == g.values,
{
    assert(g.nodes[n.0 as int].inputs[i] == g.slots(n)[i]);
    assert(g.slot_ok(n.0 as int, i));
}

/// Redirecting a slot of a shared node to another value makes the cache forget
/// the structure the node had: creating that again gives a fresh node.
pub proof fn law_redirect_forgets_structure(g: GraphModel, u: UseId, v: ValueId)
    requires
        g.valid(),
        g.has_use(u),
        g.attached(u),
        g.has_value(v),
        g.uses[u.0 as int].value != v,
    ensures
        ({
            let n = g.uses[u.0 as int].node;
            let h = g.redirected(u, v);
            &&& !h.shares(g.kind(n), g.ins(n), g.out_kinds(n))
            &&& h.created_id(g.kind(n), g.ins(n), g.out_kinds(n)) == NodeId(g.nodes.len() as u32)
        }),
{
}

/// Detaching a node takes its inputs away and leaves every other node, and all
/// outputs, as they were; the cache forgets the structure it had.
pub proof fn law_detach(g: GraphModel, n: NodeId, m: NodeId)
    requires
        g.valid(),
        g.has_node(n),
        g.has_node(m),
    ensures
        ({
            let h = g.detached(n);
            &&& h.ins(n).len() == 0
            &&& m != n ==> h.ins(m) == g.ins(m)
            &&& h.outs(m) == g.outs(m)
            &&& h.kind(m) == g.kind(m)
            &&& h.values == g.values
            &&& !h.shares(g.kind(n), g.ins(n), g.out_kinds(n))
            &&& h.created_id(g.kind(n), g.ins(n), g.out_kinds(n)) == NodeId(g.nodes.len() as u32)
        }),
{
    lemma_unlinked_shape(g.evicted(n), g.slots(n));
    assert(g.detached(n).ins(m) =~= if m == n {
        Seq::empty()
    } else {
        g.ins(m)
    });
}

pub(crate) proof fn lemma_unlinked_shape(g: GraphModel, us: Seq<UseId>)
    ensures
        g.unlinked_all(us).nodes == g.nodes,
        g.unlinked_all(us).values == g.values,
        g.unlinked_all(us).uses == g.uses,
        g.unlinked_all(us).cache == g.cache,
    decreases us.len(),
{
    if us.len() > 0 {
        lemma_unlinked_shape(g, us.drop_last());
    }
}

/// Taking out the input that was just appended gives back every node, every
/// value and every use list.
pub proof fn law_add_then_remove_input(g: GraphModel, n: NodeId, v: ValueId)
    requires
        g.valid(),
        g.has_node(n),
        g.has_value(v),
        g.has_room(0, 1, 0),
    ensures
        ({
            let h = g.with_input(n, v).without_input(n, g.ins(n).len() as int);
            &&& h.nodes == g.nodes
            &&& h.values == g.values
            &&& h.lists == g.lists
            &&& h.cache == g.cache
            &&& h.uses.take(g.uses.len() as int) == g.uses
        }),
{
    let a = g.with_input(n, v);
    let k = g.ins(n).len() as int;
    let h = a.without_input(n, k);
    let u = UseId(g.uses.len() as u32);
    assert(g.nodes[n.0 as int].inputs.len() <= g.uses.len());
    assert(a.slots(n)[k] == u);
    let list = seq![u] + g.readers(v);
    assert(a.readers(v) == list);
    assert(list[0] == u);
    assert(list.index_of(u) == 0) by {
        let j = list.index_of(u);
        if j > 0 {
            assert(g.lists[v.0 as int][j - 1] == u);
            assert(g.reader_ok(v.0 as int, j - 1));
        }
    }
    assert(drop_use(list, u) =~= g.readers(v));
    assert(h.lists =~= g.lists);
    assert(a.slots(n).remove(k) =~= g.slots(n));
    assert(h.nodes =~= g.nodes);
    assert(h.uses.take(g.uses.len() as int) =~= g.uses) by {
        assert forall|x: int| 0 <= x < g.uses.len() implies h.uses[x] == g.uses[x] by {
            assert(a.uses[x] == g.uses[x]);
            if a.follows(x, n, k) {
                assert(a.slots(n)[a.uses[x].index as int] == UseId(x as u32));
            }
        }
    }
}

/// After the cache was built anew, every structure of a shared kind is in it:
/// creating it again makes no node.
pub proof fn law_rebuilt_cache_is_complete(g: GraphModel, n: NodeId)
    requires
        g.valid(),
        g.has_node(n),
        g.kind(n).cacheable(),
    ensures
        g.recached().shares(g.kind(n), g.ins(n), g.out_kinds(n)),
        g.recached().created(g.kind(n), g.ins(n), g.out_kinds(n)) == g.recached(),
{
    lemma_cache_of_first(g, g.nodes.len());
    let m = NodeId(n.0 as int as u32);
    assert(g.kind(m).cacheable());
}

proof fn lemma_without_inputs_from(g: GraphModel, n: NodeId, listed: Seq<usize>, p: int)
    requires
        g.valid(),
        g.has_node(n),
        !g.kind(n).cacheable(),
        0 <= p <= g.ins(n).len(),
    ensures
        ({
            let h = g.without_inputs_from(n, listed, p);
            &&& h.valid()
            &&& h.ins(n) == g.ins(n).take(p) + kept_from(g.ins(n), listed, p)
            &&& h.values == g.values
            &&& h.nodes.len() == g.nodes.len()
            &&& forall|m: NodeId|
                g.has_node(m) ==> #[trigger] h.kind(m) == g.kind(m) && h.outs(m) == g.outs(m)
            &&& forall|m: NodeId|
                g.has_node(m) && m != n ==> #[trigger] h.ins(m) == g.ins(m)
        }),
    decreases g.ins(n).len() - p,
{
    let s = g.ins(n);
    if p == s.len() {
        assert(s.take(p) + kept_from(s, listed, p) =~= s);
    } else {
        lemma_without_inputs_from(g, n, listed, p + 1);
        let later = g.without_inputs_from(n, listed, p + 1);
        if exists|k: int| 0 <= k < listed.len() && #[trigger] listed[k] == p {
            assert(later.slots(n).len() == later.ins(n).len());
            assert(later.kind(n) == g.kind(n));
            lemma_without_input_valid(later, n, p);
            let h = later.without_input(n, p);
            assert(later.ins(n).remove(p) =~= s.take(p) + kept_from(s, listed, p));
            assert forall|m: NodeId| g.has_node(m) implies #[trigger] h.kind(m) == g.kind(m)
                && h.outs(m) == g.outs(m) by {
                assert(later.kind(m) == g.kind(m));
            }
            assert forall|m: NodeId| g.has_node(m) && m != n implies #[trigger] h.ins(m)
                == g.ins(m) by {
                assert(later.ins(m) == g.ins(m));
                assert(h.slots(m) == later.slots(m));
                assert forall|i: int| 0 <= i < h.slots(m).len() implies h.ins(m)[i]
                    == later.ins(m)[i] by {
                    assert(later.nodes[m.0 as int].inputs[i] == later.slots(m)[i]);
                    assert(later.slot_ok(m.0 as int, i));
                }
                assert(h.ins(m) =~= later.ins(m));
            }
        } else {
            assert(later.ins(n) =~= s.take(p) + kept_from(s, listed, p));
        }
    }
}

/// Taking inputs out keeps the order of those that stay, and everything that
/// other nodes read.
pub proof fn law_remove_inputs_keeps_order(
    g: GraphModel,
    n: NodeId,
    listed: Seq<usize>,
    m: NodeId,
)
    requires
        g.valid(),
        g.has_node(n),
        g.has_node(m),
        !g.kind(n).cacheable(),
    ensures
        ({
            let h = g.without_inputs_from(n, listed, 0);
            &&& h.valid()
            &&& h.ins(n) == kept_from(g.ins(n), listed, 0)
            &&& m != n ==> h.ins(m) == g.ins(m)
            &&& h.kind(m) == g.kind(m)
            &&& h.outs(m) == g.outs(m)
            &&& h.values == g.values
            &&& h.nodes.len() == g.nodes.len()
        }),
{
    lemma_without_inputs_from(g, n, listed, 0);
    let h = g.without_inputs_from(n, listed, 0);
    assert(g.ins(n).take(0) + kept_from(g.ins(n), listed, 0) =~= kept_from(g.ins(n), listed, 0));
    assert(h.kind(m) == g.kind(m));
    if m != n {
        assert(h.ins(m) == g.ins(m));
    }
}

/// What each slot reads after some of them were redirected.
pub(crate) proof fn lemma_redirected_uses(g: GraphModel, us: Seq<UseId>, v: ValueId, x: UseId)
    requires
        g.has_use(x),
        forall|i: int| 0 <= i < us.len() ==> g.has_use(#[trigger] us[i]),
    ensures
        g.redirected_all(us, v).uses.len() == g.uses.len(),
        g.redirected_all(us, v).uses[x.0 as int].value == if us.contains(x) {
            v
        } else {
            g.uses[x.0 as int].value
        },
    decreases us.len(),
{
    if us.len() > 0 {
        let rest = us.drop_last();
        assert forall|i: int| 0 <= i < rest.len() implies g.has_use(#[trigger] rest[i]) by {
            assert(rest[i] == us[i]);
        }
        lemma_redirected_uses(g, rest, v, x);
        assert(us =~= rest.push(us.last()));
        crate::entity_set::lemma_push_member(rest, us.last(), x);
        assert(g.has_use(us[us.len() - 1]));
    }
}

// -- cutting down to what can be reached --------------------------------------------
/// The graphs have the same nodes, values and slots; kinds and caches aside.
pub open spec fn same_skeleton(a: GraphModel, b: GraphModel) -> bool {
    &&& a.nodes.len() == b.nodes.len()
    &&& a.values == b.values
    &&& a.uses == b.uses
    &&& a.lists == b.lists
    &&& forall|n: int|
        0 <= n < a.nodes.len() ==> (#[trigger] a.nodes[n]).inputs == b.nodes[n].inputs
            && a.nodes[n].outputs == b.nodes[n].outputs
}

/// Node `m` of `q` reads and defines what node `n` of `g` did.
spec fn stands_in(
    g: GraphModel,
    q: GraphModel,
    remap: &NodeIdRemap,
    n: NodeId,
    m: NodeId,
) -> bool {
    &&& q.has_node(m)
    &&& q.ins(m).len() == g.ins(n).len()
    &&& q.outs(m).len() == g.outs(n).len()
    &&& forall|i: int|
        0 <= i < g.outs(n).len() ==> remap.value(#[trigger] g.outs(n)[i]) == Some(q.outs(m)[i])
    &&& forall|i: int|
        0 <= i < g.ins(n).len() ==> remap.value(#[trigger] g.ins(n)[i]) == Some(q.ins(m)[i])
}

proof fn lemma_stands_in(
    g: GraphModel,
    q: GraphModel,
    h: GraphModel,
    order: Seq<NodeId>,
    remap: &NodeIdRemap,
    n: NodeId,
)
    requires
        q.valid(),
        retained(g, h, order, remap),
        same_skeleton(h, q),
        remap.node(n) is Some,
    ensures
        stands_in(g, q, remap, n, remap.node(n)->0),
{
    assert(order.contains(n));
    let k = order.index_of(n);
    assert(q.nodes.len() <= u32::MAX);
    assert(remap.node(order[k]) == Some(NodeId(k as u32)));
    let m = NodeId(k as u32);
    assert(kept_node(g, h, order[k], m, remap));
    assert(h.nodes[k].inputs == q.nodes[k].inputs);
    assert(q.ins(m) =~= h.ins(m));
    assert(q.outs(m) =~= h.outs(m));
}

/// A step of the walk between kept nodes is one afterwards.
proof fn lemma_step_kept(
    g: GraphModel,
    q: GraphModel,
    h: GraphModel,
    order: Seq<NodeId>,
    remap: &NodeIdRemap,
    x: NodeId,
    y: NodeId,
)
    requires
        g.valid(),
        q.valid(),
        retained(g, h, order, remap),
        same_skeleton(h, q),
        g.has_node(x),
        remap.node(x) is Some,
        remap.node(y) is Some,
        steps_to(g, x, y),
    ensures
        steps_to(q, remap.node(x)->0, remap.node(y)->0),
{
    let (m, k) = (remap.node(x)->0, remap.node(y)->0);
    lemma_stands_in(g, q, h, order, remap, x);
    lemma_stands_in(g, q, h, order, remap, y);
    if feeds(g, x, y) {
        let i = choose|i: int| 0 <= i < g.ins(x).len() && g.producer(#[trigger] g.ins(x)[i]) == y;
        let v = g.ins(x)[i];
        assert(remap.value(v) == Some(q.ins(m)[i]));
        assert(Some(h.producer(q.ins(m)[i])) == remap.node(g.producer(v)));
        assert(q.producer(q.ins(m)[i]) == k);
    } else {
        let (i, j) = choose|i: int, j: int|
            #![trigger g.reader_positions(g.outs(x)[i])[j]]
            0 <= i < g.outs(x).len() && g.value_kind(g.outs(x)[i]) == ValueKind::Control && 0 <= j
                < g.reader_positions(g.outs(x)[i]).len() && g.reader_positions(
                g.outs(x)[i],
            )[j].0 == y;
        let v = g.outs(x)[i];
        assert(g.nodes[x.0 as int].outputs[i] == v && g.output_ok(x.0 as int, i));
        let ps = g.reader_positions(v);
        let at = ps[j].1;
        assert(ps.contains(ps[j]));
        law_readers_are_inputs(g, v, y, at);
        let w = q.outs(m)[i];
        assert(remap.value(v) == Some(w));
        assert(remap.value(g.ins(y)[at as int]) == Some(q.ins(k)[at as int]));
        assert(q.nodes[m.0 as int].outputs[i] == w && q.output_ok(m.0 as int, i));
        law_readers_are_inputs(q, w, k, at);
        let qs = q.reader_positions(w);
        let b = qs.index_of((k, at));
        assert(q.reader_positions(q.outs(m)[i])[b].0 == k);
        assert(h.value_kind(w) == g.value_kind(v));
        assert(controls(q, m, k));
    }
}

proof fn lemma_path_kept(
    g: GraphModel,
    q: GraphModel,
    h: GraphModel,
    entry: NodeId,
    remap: &NodeIdRemap,
    p: Seq<NodeId>,
    k: int,
)
    requires
        g.valid(),
        q.valid(),
        g.has_node(entry),
        retained(g, h, walk_order(g, entry), remap),
        same_skeleton(h, q),
        is_path(g, p),
        p[0] == entry,
        0 <= k < p.len(),
    ensures
        reachable(g, entry, p[k]),
        remap.node(p[k]) is Some,
        reachable(q, NodeId(0), remap.node(p[k])->0),
    decreases k,
{
    let order = walk_order(g, entry);
    law_walk_order(g, entry);
    if k == 0 {
        lemma_reachable_self(g, entry);
        lemma_reachable_self(q, NodeId(0));
        assert(remap.node(order[0]) == Some(NodeId(0)));
    } else {
        lemma_path_kept(g, q, h, entry, remap, p, k - 1);
        assert(steps_to(g, p[k - 1], p[k - 1 + 1]));
        lemma_reachable_step(g, entry, p[k - 1], p[k]);
        lemma_reachable_node(g, entry, p[k - 1]);
        assert(order.contains(p[k]));
        let x = order.index_of(p[k]);
        assert(remap.node(order[x]) is Some);
        lemma_step_kept(g, q, h, order, remap, p[k - 1], p[k]);
        lemma_reachable_step(q, NodeId(0), remap.node(p[k - 1])->0, remap.node(p[k])->0);
    }
}

/// After a graph was cut down to what can be reached from a node, everything in
/// it can be reached from that node, which is the first: cutting it down again
/// drops nothing.
pub proof fn law_retained_is_all_reachable(
    g: GraphModel,
    q: GraphModel,
    h: GraphModel,
    entry: NodeId,
    remap: &NodeIdRemap,
    m: NodeId,
)
    requires
        g.valid(),
        q.valid(),
        g.has_node(entry),
        retained(g, h, walk_order(g, entry), remap),
        same_skeleton(h, q),
        q.has_node(m),
    ensures
        reachable(q, NodeId(0), m),
        walk_order(q, NodeId(0)).len() == q.nodes.len(),
{
    let order = walk_order(g, entry);
    law_walk_order(g, entry);
    assert forall|x: NodeId| q.has_node(x) implies #[trigger] reachable(q, NodeId(0), x) by {
        let n = order[x.0 as int];
        assert(h.nodes.len() == order.len());
        assert(remap.node(order[x.0 as int]) == Some(NodeId(x.0 as int as u32)));
        assert(order.contains(n));
        let p = choose|p: Seq<NodeId>| #[trigger]
            is_path(g, p) && p[0] == entry && p.last() == n;
        lemma_path_kept(g, q, h, entry, remap, p, p.len() - 1);
    }
    let again = walk_order(q, NodeId(0));
    law_walk_order(q, NodeId(0));
    assert forall|i: int| 0 <= i < again.len() implies q.has_node(#[trigger] again[i]) by {
        assert(again.contains(again[i]));
        lemma_reachable_node(q, NodeId(0), again[i]);
    }
    lemma_distinct_bounded(again, q.nodes.len());
    let ids = Seq::new(q.nodes.len(), |i: int| NodeId(i as u32));
    assert forall|i: int| 0 <= i < ids.len() implies again.contains(#[trigger] ids[i]) by {
        assert(q.has_node(ids[i]));
        assert(reachable(q, NodeId(0), ids[i]));
    }
    lemma_covers(ids, again);
}

/// A list that holds every element of a list without repetition is no shorter.
proof fn lemma_covers(a: Seq<NodeId>, b: Seq<NodeId>)
    requires
        a.no_duplicates(),
        forall|i: int| 0 <= i < a.len() ==> b.contains(#[trigger] a[i]),
    ensures
        a.len() <= b.len(),
{
    let at = Seq::new(a.len(), |i: int| b.index_of(a[i]));
    assert forall|i: int| 0 <= i < at.len() implies 0 <= #[trigger] at[i] < b.len() by {
        assert(b.contains(a[i]));
    }
    assert forall|i: int, j: int| 0 <= i < j < at.len() implies at[i] != at[j] by {
        assert(b.contains(a[i]) && b.contains(a[j]));
        assert(b[at[i]] == a[i] && b[at[j]] == a[j]);
    }
    lemma_distinct_ints(at, b.len());
}

} // verus!
