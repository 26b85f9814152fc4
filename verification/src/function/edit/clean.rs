//! Cleaning up after edits: dead nodes are killed, and twins merged.

use super::edit_function::EditFunction;
use super::model::{
    clean_step, cleans_to, cone, is_dead, is_revival, is_run, twin_of, Edit, Marks,
};
use crate::entity_set::{lemma_distinct_bounded, lemma_push_member};
use crate::graph::model::{
    lemma_detached_valid, lemma_evicted_valid, lemma_redirected_valid, lemma_slots_listed,
    lemma_unlinked_all, GraphModel,
};
use crate::graph::walk::{feeds, lemma_feeds_node};
use crate::node::{NodeId, UseId, ValueId};
use vstd::prelude::*;

verus! {

/// Nothing reads any output of a node.
pub open spec fn unused(g: GraphModel, n: NodeId) -> bool {
    forall|i: int| 0 <= i < g.outs(n).len() ==> g.readers(#[trigger] g.outs(n)[i]).len() == 0
}

/// The cache knows nothing of a node.
pub open spec fn forgotten(g: GraphModel, n: NodeId) -> bool {
    forall|key: Seq<u64>| #[trigger] g.cache.contains_key(key) ==> g.cache[key] != n.0
}

/// One cache holds no more than another.
pub(crate) open spec fn cache_within(a: GraphModel, b: GraphModel) -> bool {
    forall|key: Seq<u64>| #[trigger]
        a.cache.contains_key(key) ==> b.cache.contains_key(key) && a.cache[key] == b.cache[key]
}

/// What holds while cleaning up: nodes that were killed or merged away stay
/// unused and forgotten, those killed stay dead, and those merged away are
/// about to be killed.
spec fn clean_inv(e: Edit, gone: Seq<NodeId>, dead: Seq<NodeId>) -> bool {
    &&& e.g.valid()
    &&& gone.no_duplicates()
    &&& dead.no_duplicates()
    &&& forall|n: NodeId| #[trigger] dead.contains(n) ==> gone.contains(n)
    &&& forall|i: int| 0 <= i < gone.len() ==> e.g.has_node(#[trigger] gone[i])
    &&& forall|n: NodeId| #[trigger]
        gone.contains(n) ==> {
            &&& unused(e.g, n)
            &&& forgotten(e.g, n)
            &&& e.marks.live.contains(n) ==> e.marks.killed.contains(n)
                && e.marks.pending.contains(n) && !e.g.kind(n).side_effects()
        }
    &&& forall|n: NodeId| #[trigger] dead.contains(n) ==> !e.marks.live.contains(n)
}

proof fn lemma_flag_killed_grows(m: Marks, g: GraphModel, n: NodeId)
    ensures
        m.flag_killed(g, n).live == m.live,
        forall|x: NodeId| #[trigger]
            m.killed.contains(x) ==> m.flag_killed(g, n).killed.contains(x),
        forall|x: NodeId| #[trigger]
            m.pending.contains(x) ==> m.flag_killed(g, n).pending.contains(x),
{
}

pub(crate) proof fn lemma_orphaning_grows(m: Marks, g: GraphModel, vs: Seq<ValueId>, k: int)
    ensures
        m.orphaning(g, vs, k).live == m.live,
        forall|x: NodeId| #[trigger]
            m.killed.contains(x) ==> m.orphaning(g, vs, k).killed.contains(x),
        forall|x: NodeId| #[trigger]
            m.pending.contains(x) ==> m.orphaning(g, vs, k).pending.contains(x),
    decreases k,
{
    if k > 0 {
        lemma_orphaning_grows(m, g, vs, k - 1);
        lemma_flag_killed_grows(m.orphaning(g, vs, k - 1), g, g.producer(vs[k - 1]));
    }
}

pub(crate) proof fn lemma_flag_readers_grows(m: Marks, ps: Seq<(NodeId, u32)>, k: int)
    ensures
        m.flag_readers(ps, k).live == m.live,
        m.flag_readers(ps, k).killed == m.killed,
        forall|x: NodeId| #[trigger]
            m.pending.contains(x) ==> m.flag_readers(ps, k).pending.contains(x),
    decreases k,
{
    if k > 0 {
        lemma_flag_readers_grows(m, ps, k - 1);
    }
}

/// Redirecting a slot leaves an unread value unread, unless it is the target.
proof fn lemma_redirected_unread(g: GraphModel, u: UseId, v: ValueId, x: ValueId)
    requires
        g.valid(),
        g.has_use(u),
        g.attached(u),
        g.has_value(v),
        g.has_value(x),
        x != v,
        g.readers(x).len() == 0,
    ensures
        g.redirected(u, v).readers(x).len() == 0,
{
    let d = g.uses[u.0 as int];
    assert(g.slot_ok(d.node.0 as int, d.index as int)) by {
        assert(g.nodes[d.node.0 as int].inputs[d.index as int] == u);
    }
    if d.value != v {
        assert(g.lists[d.value.0 as int].contains(u));
        assert(d.value != x);
    }
}

/// Redirecting slots keeps the graph, its nodes and values, and forgets only.
pub(crate) proof fn lemma_redirected_all(g: GraphModel, us: Seq<UseId>, v: ValueId)
    requires
        g.valid(),
        g.has_value(v),
        forall|i: int| 0 <= i < us.len() ==> g.has_use(#[trigger] us[i]) && g.attached(us[i]),
    ensures
        g.redirected_all(us, v).valid(),
        g.redirected_all(us, v).nodes == g.nodes,
        g.redirected_all(us, v).values == g.values,
        g.redirected_all(us, v).uses.len() == g.uses.len(),
        forall|u: UseId| g.has_use(u) && #[trigger] g.attached(u) ==> g.redirected_all(
            us,
            v,
        ).attached(u),
        cache_within(g.redirected_all(us, v), g),
        forall|x: ValueId|
            g.has_value(x) && x != v && #[trigger] g.readers(x).len() == 0 ==> g.redirected_all(
                us,
                v,
            ).readers(x).len() == 0,
    decreases us.len(),
{
    if us.len() > 0 {
        let rest = us.drop_last();
        let u = us.last();
        assert forall|i: int| 0 <= i < rest.len() implies g.has_use(#[trigger] rest[i])
            && g.attached(rest[i]) by {
            assert(us[i] == rest[i]);
        }
        lemma_redirected_all(g, rest, v);
        let h = g.redirected_all(rest, v);
        assert(us[us.len() - 1] == u);
        assert(h.attached(u));
        lemma_redirected_valid(h, u, v);
        let t = h.redirected(u, v);
        assert forall|x: UseId| g.has_use(x) && #[trigger] g.attached(x) implies t.attached(x) by {
            assert(h.attached(x));
            assert(t.uses[x.0 as int].node == h.uses[x.0 as int].node);
            assert(t.uses[x.0 as int].index == h.uses[x.0 as int].index);
        }
        assert forall|x: ValueId|
            g.has_value(x) && x != v && #[trigger] g.readers(x).len() == 0 implies t.readers(x).len()
            == 0 by {
            assert(h.readers(x).len() == 0);
            lemma_redirected_unread(h, u, v, x);
        }
        assert(cache_within(t, g)) by {
            assert forall|key: Seq<u64>| #[trigger] t.cache.contains_key(key) implies g.cache.contains_key(
                key,
            ) && t.cache[key] == g.cache[key] by {
                assert(h.cache.contains_key(key));
            }
        }
    }
}

/// A node that another reads is used.
pub(crate) proof fn lemma_fed_used(g: GraphModel, a: NodeId, b: NodeId)
    requires
        g.valid(),
        g.has_node(a),
        feeds(g, a, b),
    ensures
        g.has_node(b),
        !unused(g, b),
{
    let i = choose|i: int| 0 <= i < g.ins(a).len() && g.producer(#[trigger] g.ins(a)[i]) == b;
    lemma_feeds_node(g, a, i);
    let v = g.ins(a)[i];
    assert(g.slot_ok(a.0 as int, i)) by {
        assert(g.nodes[a.0 as int].inputs[i] == g.slots(a)[i]);
    }
    assert(g.lists[v.0 as int].contains(g.slots(a)[i]));
    assert(g.value_ok(v.0 as int));
    let k = g.values[v.0 as int].index as int;
    assert(g.outs(b)[k] == v);
    assert(g.readers(g.outs(b)[k]).len() > 0);
}

pub(crate) proof fn lemma_revival_nodes(g: GraphModel, live: Set<NodeId>, p: Seq<NodeId>, k: int)
    requires
        g.valid(),
        is_revival(g, live, p),
        g.has_node(p[0]),
        0 <= k < p.len(),
    ensures
        g.has_node(p[k]),
        k > 0 ==> !unused(g, p[k]),
    decreases k,
{
    if k > 0 {
        lemma_revival_nodes(g, live, p, k - 1);
        assert(p[k - 1 + 1] == p[k]);
        assert(feeds(g, p[k - 1], p[k - 1 + 1]));
        lemma_fed_used(g, p[k - 1], p[k]);
    }
}

/// What comes back to life with a node is that node, or is used.
pub(crate) proof fn lemma_cone_used(g: GraphModel, live: Set<NodeId>, from: NodeId, n: NodeId)
    requires
        g.valid(),
        g.has_node(from),
        cone(g, live, from).contains(n),
    ensures
        n == from || !unused(g, n),
{
    let p = choose|p: Seq<NodeId>| #[trigger] is_revival(g, live, p) && p[0] == from && p.last() == n;
    lemma_revival_nodes(g, live, p, p.len() - 1);
}

/// Detaching forgets only, and leaves unread values unread.
pub(crate) proof fn lemma_detached_keeps(g: GraphModel, n: NodeId)
    requires
        g.valid(),
        g.has_node(n),
    ensures
        cache_within(g.detached(n), g),
        forall|m: NodeId| #[trigger] unused(g, m) && g.has_node(m) ==> unused(g.detached(n), m),
{
    lemma_detached_valid(g, n);
    lemma_evicted_valid(g, n);
    let e = g.evicted(n);
    lemma_slots_listed(e, n);
    assert(e.slots(n) == g.slots(n));
    lemma_unlinked_all(e, g.slots(n));
    let h = g.detached(n);
    assert(h.cache == e.cache);
    assert forall|m: NodeId| #[trigger] unused(g, m) && g.has_node(m) implies unused(h, m) by {
        assert(h.outs(m) == g.outs(m));
        assert forall|i: int| 0 <= i < h.outs(m).len() implies h.readers(
            #[trigger] h.outs(m)[i],
        ).len() == 0 by {
            let v = g.outs(m)[i];
            assert(g.output_ok(m.0 as int, i)) by {
                assert(g.nodes[m.0 as int].outputs[i] == v);
            }
            assert(g.readers(g.outs(m)[i]).len() == 0);
            if h.readers(v).len() > 0 {
                let x = h.lists[v.0 as int][0];
                assert(h.lists[v.0 as int].contains(x));
                assert(g.lists[v.0 as int].contains(x));
            }
        }
    }
}

/// A node is dropped, or passed over.
proof fn lemma_examine_skip(e: Edit, gone: Seq<NodeId>, dead: Seq<NodeId>, n: NodeId)
    requires
        clean_inv(e, gone, dead),
        e.marks.pending.contains(n),
        e.g.has_node(n),
        !e.marks.live.contains(n) || !e.marks.recanon.contains(n) && !(e.marks.killed.contains(n)
            && is_dead(e.g, n)),
    ensures
        clean_inv(e.examine(n), gone, dead),
{
    let f = e.examine(n);
    assert forall|m: NodeId| #[trigger] gone.contains(m) implies unused(f.g, m) && forgotten(f.g, m)
        && (f.marks.live.contains(m) ==> f.marks.killed.contains(m) && f.marks.pending.contains(m)
        && !f.g.kind(m).side_effects()) by {
        assert(unused(e.g, m) && forgotten(e.g, m));
        if m == n && e.marks.live.contains(n) {
            assert(is_dead(e.g, n));
        }
    }
}

/// A dead node is killed.
proof fn lemma_examine_kill(e: Edit, gone: Seq<NodeId>, dead: Seq<NodeId>, n: NodeId)
    requires
        clean_inv(e, gone, dead),
        e.marks.pending.contains(n),
        e.marks.live.contains(n),
        e.g.has_node(n),
        e.marks.killed.contains(n),
        is_dead(e.g, n),
    ensures
        ({
            let gone2 = if gone.contains(n) {
                gone
            } else {
                gone.push(n)
            };
            clean_inv(e.examine(n), gone2, dead.push(n))
        }),
        !dead.contains(n),
{
    let gone2 = if gone.contains(n) {
        gone
    } else {
        gone.push(n)
    };
    let dead2 = dead.push(n);
    let f = e.examine(n);
    let h = e.g.detached(n);
    assert(f.g == h);
    lemma_detached_valid(e.g, n);
    lemma_detached_keeps(e.g, n);
    let m1 = Marks {
        killed: e.marks.killed.remove(n),
        pending: e.marks.pending.remove(n),
        ..e.marks
    };
    let m2 = m1.without(n);
    let vs = e.g.ins(n);
    lemma_orphaning_grows(m2, h, vs, vs.len() as int);
    assert(f.marks == m2.orphaning(h, vs, vs.len() as int));
    assert(unused(e.g, n));
    assert forall|m: NodeId| gone2.contains(m) <==> gone.contains(m) || m == n by {
        lemma_push_member(gone, n, m);
    }
    assert forall|m: NodeId| dead2.contains(m) <==> dead.contains(m) || m == n by {
        lemma_push_member(dead, n, m);
    }
    assert forall|i: int, j: int| 0 <= i < gone2.len() && 0 <= j < gone2.len() && i != j implies gone2[i]
        != gone2[j] by {
        if !gone.contains(n) {
            if i == gone.len() {
                assert(gone.contains(gone[j]));
            } else if j == gone.len() {
                assert(gone.contains(gone[i]));
            }
        }
    }
    assert forall|i: int, j: int| 0 <= i < dead2.len() && 0 <= j < dead2.len() && i != j implies dead2[i]
        != dead2[j] by {
        if i == dead.len() {
            assert(dead.contains(dead[j]));
        } else if j == dead.len() {
            assert(dead.contains(dead[i]));
        }
    }
    assert forall|i: int| 0 <= i < gone2.len() implies f.g.has_node(#[trigger] gone2[i]) by {
        if i < gone.len() {
            assert(e.g.has_node(gone[i]));
        }
    }
    assert forall|m: NodeId| #[trigger] gone2.contains(m) implies unused(f.g, m) && forgotten(
        f.g,
        m,
    ) && (f.marks.live.contains(m) ==> f.marks.killed.contains(m) && f.marks.pending.contains(m)
        && !f.g.kind(m).side_effects()) by {
        if gone.contains(m) {
            let x = gone.index_of(m);
            assert(e.g.has_node(gone[x]));
            assert(unused(e.g, m) && forgotten(e.g, m));
        }
        assert(unused(e.g, m) && e.g.has_node(m));
        assert(unused(h, m));
        assert(forgotten(h, m)) by {
            assert forall|key: Seq<u64>| #[trigger] h.cache.contains_key(key) implies h.cache[key]
                != m.0 by {
                if m != n {
                    assert(e.g.cache.contains_key(key));
                }
            }
        }
        if m != n && f.marks.live.contains(m) {
            assert(e.marks.live.contains(m));
            assert(m2.killed.contains(m) && m2.pending.contains(m));
            assert(h.kind(m) == e.g.kind(m));
        }
    }
    assert forall|m: NodeId| #[trigger] dead2.contains(m) implies !f.marks.live.contains(m) by {
        if dead.contains(m) {
            assert(!e.marks.live.contains(m));
        }
    }
}

/// A node without a twin is entered into the cache.
proof fn lemma_examine_enter(e: Edit, gone: Seq<NodeId>, dead: Seq<NodeId>, n: NodeId)
    requires
        clean_inv(e, gone, dead),
        e.marks.pending.contains(n),
        e.marks.live.contains(n),
        e.g.has_node(n),
        e.marks.recanon.contains(n),
        !(e.marks.killed.contains(n) && is_dead(e.g, n)),
        twin_of(e.g, n) is None,
        e.examine(n).g.valid(),
    ensures
        clean_inv(e.examine(n), gone, dead),
{
    let f = e.examine(n);
    if gone.contains(n) {
        assert(unused(e.g, n));
        assert(is_dead(e.g, n));
    }
    assert forall|m: NodeId| #[trigger] gone.contains(m) implies unused(f.g, m) && forgotten(f.g, m)
        && (f.marks.live.contains(m) ==> f.marks.killed.contains(m) && f.marks.pending.contains(m)
        && !f.g.kind(m).side_effects()) by {
        assert(unused(e.g, m) && forgotten(e.g, m));
        assert(unused(f.g, m)) by {
            assert(f.g.outs(m) == e.g.outs(m));
            assert forall|i: int| 0 <= i < f.g.outs(m).len() implies f.g.readers(
                #[trigger] f.g.outs(m)[i],
            ).len() == 0 by {
                assert(e.g.readers(e.g.outs(m)[i]).len() == 0);
            }
        }
        assert(forgotten(f.g, m)) by {
            assert forall|key: Seq<u64>| #[trigger] f.g.cache.contains_key(key) implies f.g.cache[key]
                != m.0 by {
                if key == e.g.key(n) && f.g.cache[key] == n.0 && n.0 == m.0 {
                    assert(n == m);
                } else if e.g.cache.contains_key(key) {
                }
            }
        }
    }
}

/// A node is merged into its twin.
#[verifier::rlimit(30)]
proof fn lemma_examine_merge(e: Edit, gone: Seq<NodeId>, dead: Seq<NodeId>, n: NodeId)
    requires
        clean_inv(e, gone, dead),
        e.marks.pending.contains(n),
        e.marks.live.contains(n),
        e.g.has_node(n),
        e.marks.recanon.contains(n),
        !(e.marks.killed.contains(n) && is_dead(e.g, n)),
        twin_of(e.g, n) is Some,
        e.examine(n).g.readers(e.g.outs(n)[0]).len() == 0,
    ensures
        clean_inv(e.examine(n), gone.push(n), dead),
        !gone.contains(n),
{
    let f = e.examine(n);
    let g = e.g;
    let t = twin_of(g, n)->0;
    let key0 = g.key(n);
    assert(g.entry_ok(key0));
    if gone.contains(n) {
        assert(unused(g, n));
        assert(is_dead(g, n));
    }
    assert(!gone.contains(t)) by {
        if gone.contains(t) {
            assert(forgotten(g, t));
            assert(g.cache.contains_key(key0));
        }
    }
    let a = g.outs(n)[0];
    let b = g.outs(t)[0];
    assert(g.out_kinds(t).len() == g.out_kinds(n).len()) by {
        assert(g.nodes[n.0 as int].inputs.len() <= g.uses.len());
        assert(g.nodes[t.0 as int].inputs.len() <= g.uses.len());
        crate::cache::law_key_identifies_structure(
            g.kind(t),
            g.ins(t),
            g.out_kinds(t),
            g.kind(n),
            g.ins(n),
            g.out_kinds(n),
        );
    }
    assert(g.outs(t).len() == 1);
    assert(g.output_ok(n.0 as int, 0)) by {
        assert(g.nodes[n.0 as int].outputs[0] == a);
    }
    assert(g.output_ok(t.0 as int, 0)) by {
        assert(g.nodes[t.0 as int].outputs[0] == b);
    }
    assert(a != b);
    assert(g.producer(a) == n && g.producer(b) == t);
    let us = g.readers(a);
    assert forall|i: int| 0 <= i < us.len() implies g.has_use(#[trigger] us[i]) && g.attached(us[i]) by {
        assert(g.reader_ok(a.0 as int, i)) by {
            assert(g.lists[a.0 as int][i] == us[i]);
        }
    }
    lemma_redirected_all(g, us, b);
    let h = if us.len() == 0 {
        g
    } else {
        g.redirected_all(us, b)
    };
    assert(f.g == h);
    let m1 = Marks {
        killed: e.marks.killed.remove(n),
        pending: e.marks.pending.remove(n),
        recanon: e.marks.recanon.remove(n),
        ..e.marks
    };
    let ps = g.reader_positions(a);
    let m2 = if us.len() == 0 {
        m1
    } else {
        m1.attaching(g, b).flag_readers(ps, ps.len() as int)
    };
    lemma_flag_readers_grows(m1.attaching(g, b), ps, ps.len() as int);
    lemma_flag_killed_grows(m2, h, n);
    assert(f.marks == m2.flag_killed(h, n));
    let gone2 = gone.push(n);
    assert forall|m: NodeId| gone2.contains(m) <==> gone.contains(m) || m == n by {
        lemma_push_member(gone, n, m);
    }
    assert forall|i: int, j: int| 0 <= i < gone2.len() && 0 <= j < gone2.len() && i != j implies gone2[i]
        != gone2[j] by {
        if i == gone.len() {
            assert(gone.contains(gone[j]));
        } else if j == gone.len() {
            assert(gone.contains(gone[i]));
        }
    }
    assert forall|i: int| 0 <= i < gone2.len() implies f.g.has_node(#[trigger] gone2[i]) by {
        if i < gone.len() {
            assert(g.has_node(gone[i]));
        }
    }
    assert(cache_within(h, g));
    assert forall|m: NodeId| #[trigger] gone2.contains(m) implies unused(f.g, m) && forgotten(
        f.g,
        m,
    ) && (f.marks.live.contains(m) ==> f.marks.killed.contains(m) && f.marks.pending.contains(m)
        && !f.g.kind(m).side_effects()) by {
        assert(h.outs(m) == g.outs(m));
        assert(h.kind(m) == g.kind(m));
        if m == n {
            assert(unused(h, m));
            assert(forgotten(h, m)) by {
                assert forall|key: Seq<u64>| #[trigger] h.cache.contains_key(key) implies h.cache[key]
                    != m.0 by {
                    assert(g.cache.contains_key(key));
                    assert(g.entry_ok(key));
                    if g.cache[key] == n.0 {
                        assert(key == key0);
                    }
                }
            }
            assert(m2.live.contains(n));
        } else {
            assert(unused(g, m) && forgotten(g, m));
            let x = gone.index_of(m);
            assert(g.has_node(gone[x]));
            assert(unused(h, m)) by {
                assert forall|i: int| 0 <= i < h.outs(m).len() implies h.readers(
                    #[trigger] h.outs(m)[i],
                ).len() == 0 by {
                    let v = g.outs(m)[i];
                    assert(g.readers(g.outs(m)[i]).len() == 0);
                    assert(g.output_ok(m.0 as int, i)) by {
                        assert(g.nodes[m.0 as int].outputs[i] == v);
                    }
                    assert(v != b);
                    assert(g.has_value(v) && g.readers(v).len() == 0);
                }
            }
            assert(forgotten(h, m)) by {
                assert forall|key: Seq<u64>| #[trigger] h.cache.contains_key(key) implies h.cache[key]
                    != m.0 by {
                    assert(g.cache.contains_key(key));
                }
            }
            if f.marks.live.contains(m) {
                lemma_gone_not_revived(e, gone, dead, m, m1.live, t);
                assert(e.marks.live.contains(m));
                assert(m1.killed.contains(m) && m1.pending.contains(m));
                assert(m1.attaching(g, b).killed.contains(m));
                assert(m1.attaching(g, b).pending.contains(m));
                assert(m2.killed.contains(m) && m2.pending.contains(m));
            }
        }
    }
    assert forall|m: NodeId| #[trigger] dead.contains(m) implies !f.marks.live.contains(m) by {
        assert(gone.contains(m));
        assert(!e.marks.live.contains(m));
        lemma_gone_not_revived(e, gone, dead, m, m1.live, t);
    }
}

/// A node that is gone does not come back with a cached node.
proof fn lemma_gone_not_revived(
    e: Edit,
    gone: Seq<NodeId>,
    dead: Seq<NodeId>,
    m: NodeId,
    live: Set<NodeId>,
    t: NodeId,
)
    requires
        clean_inv(e, gone, dead),
        gone.contains(m),
        e.g.has_node(t),
        !gone.contains(t),
    ensures
        !cone(e.g, live, t).contains(m),
{
    if cone(e.g, live, t).contains(m) {
        lemma_cone_used(e.g, live, t, m);
        assert(unused(e.g, m));
    }
}

/// A run goes on.
proof fn lemma_run_on(run: Seq<Edit>, n: NodeId)
    requires
        is_run(run),
        run.last().marks.pending.contains(n),
    ensures
        is_run(run.push(run.last().examine(n))),
{
    let next = run.push(run.last().examine(n));
    assert forall|k: int| 0 < k < next.len() implies clean_step(next[k - 1], #[trigger] next[k]) by {
        if k < run.len() {
            assert(clean_step(run[k - 1], run[k]));
            assert(next[k - 1] == run[k - 1]);
        } else {
            assert(next[k - 1] == run.last());
            assert(next[k] == next[k - 1].examine(n));
        }
    }
}

impl<'g> EditFunction<'g> {
    /// Merges a node into its twin, or enters it into the cache.
    fn canonicalize_node(&mut self, node: NodeId)
        requires
            old(self).wf(),
            old(self).f().g().has_node(node),
        ensures
            final(self).wf(),
            final(self).edit() == old(self).edit().canonicalize(node),
            final(self).f().g().nodes == old(self).f().g().nodes,
            twin_of(old(self).f().g(), node) is None ==> final(self).waiting()
                == old(self).waiting(),
            twin_of(old(self).f().g(), node) is Some ==> final(self).f().g().readers(
                old(self).f().g().outs(node)[0],
            ).len() == 0,
            final(self).same_rest(old(self)),
            *final(final(self).function) == *final(old(self).function),
    {
        let ghost f0 = self.f();
        let ghost g = f0.g();
        proof {
            f0.lemma_wf();
            self.lemma_same_rest_refl();
        }
        self.drop_recanon(node);
        let single = self.function.node_outputs(node).len() == 1
            && !self.function.node_kind(node).has_side_effects();
        let found = self.share(node);
        let ghost mid = *self;
        if let Some(twin) = found {
            if single {
                proof {
                    assert(g.out_kinds(twin).len() == g.out_kinds(node).len());
                }
                let node_out = self.function.node_outputs(node)[0];
                let twin_out = self.function.node_outputs(twin)[0];
                let _ = self.replace_value(node_out, twin_out);
                proof {
                    Self::lemma_same_rest_trans(self, &mid, old(self));
                }
            }
        }
    }

    /// Looks at every waiting node until none is left: a dead one is killed,
    /// which may leave its operands dead, and one with a twin is merged into
    /// it.
    pub fn clean(&mut self)
        requires
            old(self).wf(),
        ensures
            final(self).wf(),
            cleans_to(old(self).edit(), final(self).edit()),
            final(self).same_rest(old(self)),
            *final(final(self).function) == *final(old(self).function),
    {
        let ghost mut run: Seq<Edit> = seq![self.edit()];
        let ghost mut gone: Seq<NodeId> = Seq::empty();
        let ghost mut dead: Seq<NodeId> = Seq::empty();
        let ghost count = self.f().g().nodes.len();
        proof {
            self.f().lemma_wf();
            self.lemma_same_rest_refl();
            assert(is_run(run));
        }
        let mut more = true;
        while more
            invariant
                self.wf(),
                self.same_rest(old(self)),
                *final(self.function) == *final(old(self).function),
                self.f().g().nodes.len() == count,
                clean_inv(self.edit(), gone, dead),
                is_run(run),
                run[0] == old(self).edit(),
                run.last() == self.edit(),
                !more ==> self.marks().pending =~= Set::empty(),
            decreases more as int, count - gone.len(), count - dead.len(), self.waiting(),
        {
            let ghost at = *self;
            let ghost e = self.edit();
            match self.next_pending() {
                None => {
                    more = false;
                },
                Some(node) => {
                    proof {
                        at.lemma_wf();
                        assert(e.g.has_node(node));
                    }
                    if self.is_live(node) {
                        let was_killed = self.drop_killed(node);
                        if was_killed && self.is_node_dead(node) {
                            self.kill_node(node);
                            proof {
                                assert(self.edit() == e.examine(node));
                                lemma_examine_kill(e, gone, dead, node);
                                lemma_detached_valid(e.g, node);
                                if !gone.contains(node) {
                                    gone = gone.push(node);
                                }
                                dead = dead.push(node);
                            }
                        } else if self.needs_recanon(node) {
                            self.canonicalize_node(node);
                            proof {
                                self.f().lemma_wf();
                                assert(self.edit() == e.examine(node));
                                if twin_of(e.g, node) is Some {
                                    lemma_examine_merge(e, gone, dead, node);
                                    gone = gone.push(node);
                                } else {
                                    lemma_examine_enter(e, gone, dead, node);
                                }
                            }
                        } else {
                            proof {
                                assert(self.edit() == e.examine(node));
                                lemma_examine_skip(e, gone, dead, node);
                            }
                        }
                    } else {
                        proof {
                            assert(self.edit() == e.examine(node));
                            lemma_examine_skip(e, gone, dead, node);
                        }
                    }
                    proof {
                        Self::lemma_same_rest_trans(self, &at, old(self));
                        lemma_run_on(run, node);
                        run = run.push(e.examine(node));
                        lemma_distinct_bounded(gone, count);
                        assert forall|i: int| 0 <= i < dead.len() implies self.f().g().has_node(
                            #[trigger] dead[i],
                        ) by {
                            assert(dead.contains(dead[i]));
                            let x = gone.index_of(dead[i]);
                            assert(self.f().g().has_node(gone[x]));
                        }
                        lemma_distinct_bounded(dead, count);
                    }
                },
            }
        }
        proof {
            assert(is_run(run));
        }
    }
}

} // verus!
