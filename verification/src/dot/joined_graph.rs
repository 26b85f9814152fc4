//! Every edge of a drawing of a graph joins two boxes that it declares.

use super::emitter::StmtModel;
use super::function_dot::{branch_label, virtual_id};
use super::graph_dot::{
    address_edge, blank, branch_count, const_box, constant_node, declares, shown_upto, visible,
    with_box, with_branch, with_branches, with_edge, with_edges, with_node, with_nodes, with_number,
    with_source, GraphDotDumper, GraphPlan, GraphScene,
};
use super::joined::{declared, lemma_declared_push};
use crate::fmt::dec;
use crate::graph::walk::{feeds, law_walk_order, lemma_reachable_step, reachable, steps_to, walk_order};
use crate::node::{NodeId, ValueId};
use vstd::prelude::*;

verus! {

/// The box of a node that has its number and is yet to come.
spec fn promised(p: &GraphPlan, order: Seq<NodeId>, sc: GraphScene, id: Seq<char>) -> bool {
    exists|m: NodeId| #[trigger]
        order.contains(m) && declares(p, m) && sc.numbers.contains_key(m) && id == dec(
            sc.numbers[m] as nat,
        )
}

spec fn sound_end(p: &GraphPlan, order: Seq<NodeId>, sc: GraphScene, id: Seq<char>) -> bool {
    declared(sc.stmts, id) || promised(p, order, sc, id)
}

/// Every edge joins boxes that are declared or yet to come, and every box that
/// stands for no node is declared.
spec fn joined(p: &GraphPlan, order: Seq<NodeId>, sc: GraphScene) -> bool {
    &&& forall|i: int|
        0 <= i < sc.stmts.len() ==> ((#[trigger] sc.stmts[i]) matches StmtModel::Edge {
            from,
            to,
            ..
        } ==> sound_end(p, order, sc, from) && sound_end(p, order, sc, to))
    &&& forall|v: ValueId| #[trigger]
        sc.virtuals.contains_key(v) ==> declared(sc.stmts, virtual_id(sc.virtuals[v] as nat))
}

/// What later scenes keep: declarations, and the numbers of nodes that are no
/// constants.
spec fn keeps(p: &GraphPlan, a: GraphScene, b: GraphScene) -> bool {
    &&& a.next <= b.next
    &&& forall|x: Seq<char>| #[trigger] declared(a.stmts, x) ==> declared(b.stmts, x)
    &&& forall|m: NodeId| #[trigger]
        a.numbers.contains_key(m) && !constant_node(p, m) ==> b.numbers.contains_key(m)
            && b.numbers[m] == a.numbers[m]
}

proof fn lemma_keeps_end(
    p: &GraphPlan,
    order: Seq<NodeId>,
    a: GraphScene,
    b: GraphScene,
    id: Seq<char>,
)
    requires
        keeps(p, a, b),
        sound_end(p, order, a, id),
    ensures
        sound_end(p, order, b, id),
{
    if !declared(a.stmts, id) {
        let m = choose|m: NodeId| #[trigger]
            order.contains(m) && declares(p, m) && a.numbers.contains_key(m) && id == dec(
                a.numbers[m] as nat,
            );
        assert(a.numbers.contains_key(m) && !constant_node(p, m));
        assert(order.contains(m));
    }
}

/// A statement is added whose ends, if it is an edge, are sound.
proof fn lemma_joined_push(p: &GraphPlan, order: Seq<NodeId>, sc: GraphScene, s: StmtModel)
    requires
        joined(p, order, sc),
        s matches StmtModel::Edge { from, to, .. } ==> sound_end(p, order, sc, from) && sound_end(
            p,
            order,
            sc,
            to,
        ),
    ensures
        joined(p, order, (GraphScene { stmts: sc.stmts.push(s), ..sc })),
        keeps(p, sc, (GraphScene { stmts: sc.stmts.push(s), ..sc })),
        s matches StmtModel::Node { id, .. } ==> declared(sc.stmts.push(s), id),
{
    let t = GraphScene { stmts: sc.stmts.push(s), ..sc };
    assert forall|x: Seq<char>| #[trigger] declared(sc.stmts, x) implies declared(t.stmts, x) by {
        lemma_declared_push(sc.stmts, s, x);
    }
    if let StmtModel::Node { id, .. } = s {
        lemma_declared_push(sc.stmts, s, id);
    }
    assert forall|i: int| 0 <= i < t.stmts.len() implies ((
    #[trigger] t.stmts[i]) matches StmtModel::Edge { from, to, .. } ==> sound_end(
        p,
        order,
        t,
        from,
    ) && sound_end(p, order, t, to)) by {
        if let StmtModel::Edge { from, to, .. } = t.stmts[i] {
            if i < sc.stmts.len() {
                assert(t.stmts[i] == sc.stmts[i]);
            }
            lemma_keeps_end(p, order, sc, t, from);
            lemma_keeps_end(p, order, sc, t, to);
        }
    }
}

/// A node gets its number.
proof fn lemma_with_number(p: &GraphPlan, order: Seq<NodeId>, sc: GraphScene, n: NodeId)
    requires
        joined(p, order, sc),
        sc.next <= u128::MAX,
    ensures
        ({
            let (t, id) = with_number(p, sc, n);
            &&& joined(p, order, t)
            &&& keeps(p, sc, t)
            &&& t.next <= sc.next + 1
            &&& t.stmts == sc.stmts
            &&& t.virtuals == sc.virtuals
            &&& t.numbers.contains_key(n)
            &&& id == dec(t.numbers[n] as nat)
        }),
{
    let (t, id) = with_number(p, sc, n);
    assert forall|i: int| 0 <= i < t.stmts.len() implies ((
    #[trigger] t.stmts[i]) matches StmtModel::Edge { from, to, .. } ==> sound_end(
        p,
        order,
        t,
        from,
    ) && sound_end(p, order, t, to)) by {
        if let StmtModel::Edge { from, to, .. } = t.stmts[i] {
            assert(t.stmts[i] == sc.stmts[i]);
            lemma_keeps_end(p, order, sc, t, from);
            lemma_keeps_end(p, order, sc, t, to);
        }
    }
}

/// A box that stands for a value is declared and entered.
proof fn lemma_enter_virtual(p: &GraphPlan, order: Seq<NodeId>, sc: GraphScene, v: ValueId, k: u128)
    requires
        joined(p, order, sc),
        declared(sc.stmts, virtual_id(k as nat)),
    ensures
        joined(p, order, (GraphScene { virtuals: sc.virtuals.insert(v, k), ..sc })),
{
    let t = GraphScene { virtuals: sc.virtuals.insert(v, k), ..sc };
    assert forall|i: int| 0 <= i < t.stmts.len() implies ((
    #[trigger] t.stmts[i]) matches StmtModel::Edge { from, to, .. } ==> sound_end(
        p,
        order,
        t,
        from,
    ) && sound_end(p, order, t, to)) by {
        if let StmtModel::Edge { from, to, .. } = t.stmts[i] {
            assert(t.stmts[i] == sc.stmts[i]);
            lemma_keeps_end(p, order, sc, t, from);
            lemma_keeps_end(p, order, sc, t, to);
        }
    }
}

proof fn lemma_with_branch(
    p: &GraphPlan,
    order: Seq<NodeId>,
    sc: GraphScene,
    v: ValueId,
    label: Seq<char>,
)
    requires
        joined(p, order, sc),
        sc.next <= u128::MAX,
    ensures
        ({
            let (t, id) = with_branch(sc, v, label);
            &&& joined(p, order, t)
            &&& keeps(p, sc, t)
            &&& declared(t.stmts, id)
            &&& t.next <= sc.next + 1
        }),
{
    let (t, id) = with_branch(sc, v, label);
    if !sc.virtuals.contains_key(v) {
        let s = t.stmts.last();
        let a = GraphScene { next: sc.next + 1, ..sc };
        lemma_later(p, order, sc, a);
        let b = GraphScene { stmts: a.stmts.push(s), ..a };
        lemma_joined_push(p, order, a, s);
        lemma_enter_virtual(p, order, b, v, sc.next as u128);
        assert(t =~= GraphScene { virtuals: b.virtuals.insert(v, sc.next as u128), ..b });
    }
}

/// Skipping a number changes nothing.
proof fn lemma_later(p: &GraphPlan, order: Seq<NodeId>, sc: GraphScene, t: GraphScene)
    requires
        joined(p, order, sc),
        t == (GraphScene { next: t.next, ..sc }),
        sc.next <= t.next,
    ensures
        joined(p, order, t),
        keeps(p, sc, t),
{
    assert forall|i: int| 0 <= i < t.stmts.len() implies ((
    #[trigger] t.stmts[i]) matches StmtModel::Edge { from, to, .. } ==> sound_end(
        p,
        order,
        t,
        from,
    ) && sound_end(p, order, t, to)) by {
        if let StmtModel::Edge { from, to, .. } = t.stmts[i] {
            assert(t.stmts[i] == sc.stmts[i]);
            lemma_keeps_end(p, order, sc, t, from);
            lemma_keeps_end(p, order, sc, t, to);
        }
    }
}

proof fn lemma_with_branches(
    p: &GraphPlan,
    order: Seq<NodeId>,
    sc: GraphScene,
    n: NodeId,
    id: Seq<char>,
    k: int,
)
    requires
        joined(p, order, sc),
        declared(sc.stmts, id),
        sc.next + 2 <= u128::MAX,
        k <= 2,
    ensures
        ({
            let t = with_branches(p, sc, n, id, k);
            &&& joined(p, order, t)
            &&& keeps(p, sc, t)
            &&& t.next <= sc.next + (if k < 0 {
                0
            } else {
                k
            })
        }),
    decreases k,
{
    if k > 0 {
        lemma_with_branches(p, order, sc, n, id, k - 1);
        let u = with_branches(p, sc, n, id, k - 1);
        let label = branch_label(k - 1);
        lemma_with_branch(p, order, u, p.f.g().outs(n)[k - 1], label);
        let (next, to) = with_branch(u, p.f.g().outs(n)[k - 1], label);
        let t = with_branches(p, sc, n, id, k);
        let s = t.stmts.last();
        assert(declared(u.stmts, id));
        assert(t =~= GraphScene { stmts: next.stmts.push(s), ..next });
        lemma_joined_push(p, order, next, s);
        lemma_keeps_all(p, sc, u, next, t);
    }
}

proof fn lemma_keeps_all(
    p: &GraphPlan,
    a: GraphScene,
    b: GraphScene,
    c: GraphScene,
    d: GraphScene,
)
    requires
        keeps(p, a, b),
        keeps(p, b, c),
        keeps(p, c, d),
    ensures
        keeps(p, a, d),
{
    assert forall|x: Seq<char>| #[trigger] declared(a.stmts, x) implies declared(d.stmts, x) by {
        assert(declared(b.stmts, x));
        assert(declared(c.stmts, x));
    }
    assert forall|m: NodeId| #[trigger]
        a.numbers.contains_key(m) && !constant_node(p, m) implies d.numbers.contains_key(m)
        && d.numbers[m] == a.numbers[m] by {
        assert(b.numbers.contains_key(m) && !constant_node(p, m));
        assert(c.numbers.contains_key(m) && !constant_node(p, m));
    }
}

/// A node that something reads declares its box.
proof fn lemma_read_declares(p: &GraphPlan, n: NodeId, idx: int)
    requires
        p.f.g().valid(),
        p.f.g().has_node(n),
        0 <= idx < p.f.g().ins(n).len(),
        visible(p, p.f.g().producer(p.f.g().ins(n)[idx])),
        !constant_node(p, p.f.g().producer(p.f.g().ins(n)[idx])),
    ensures
        declares(p, p.f.g().producer(p.f.g().ins(n)[idx])),
{
    let g = p.f.g();
    let v = g.ins(n)[idx];
    assert(g.nodes[n.0 as int].inputs[idx] == g.slots(n)[idx]);
    assert(g.slot_ok(n.0 as int, idx));
    assert(g.lists[v.0 as int].contains(g.slots(n)[idx]));
    assert(g.value_ok(v.0 as int));
}

/// The box that an edge leaves from is sound, or the copy of a constant that
/// is declared next.
proof fn lemma_with_source(p: &GraphPlan, order: Seq<NodeId>, sc: GraphScene, n: NodeId, idx: int)
    requires
        p.f.g().valid(),
        p.f.g().has_node(n),
        0 <= idx < p.f.g().ins(n).len(),
        joined(p, order, sc),
        sc.next + 2 <= u128::MAX,
        ({
            let parent = p.f.g().producer(p.f.g().ins(n)[idx]);
            constant_node(p, parent) || (visible(p, parent) && order.contains(parent))
        }),
    ensures
        ({
            let v = p.f.g().ins(n)[idx];
            let parent = p.f.g().producer(v);
            let (next, from) = with_source(p, sc, v);
            &&& joined(p, order, next)
            &&& keeps(p, sc, next)
            &&& next.next <= sc.next + 2
            &&& constant_node(p, parent) || sound_end(p, order, next, from)
        }),
{
    let g = p.f.g();
    let v = g.ins(n)[idx];
    let parent = g.producer(v);
    let index = g.values[v.0 as int].index;
    let (next, from) = with_source(p, sc, v);
    if !constant_node(p, parent) {
        lemma_read_declares(p, n, idx);
    }
    if sc.virtuals.contains_key(v) {
    } else if g.kind(parent) is Call && index >= 2 {
        let a = GraphScene { next: sc.next + 1, ..sc };
        lemma_later(p, order, sc, a);
        lemma_with_number(p, order, a, parent);
        let (b, call) = with_number(p, a, parent);
        assert(sound_end(p, order, b, call)) by {
            assert(order.contains(parent));
        }
        let box_stmt = next.stmts[sc.stmts.len() as int];
        let edge = next.stmts[(sc.stmts.len() + 1) as int];
        let c = GraphScene { stmts: b.stmts.push(box_stmt), ..b };
        lemma_joined_push(p, order, b, box_stmt);
        lemma_keeps_end(p, order, b, c, call);
        let d = GraphScene { stmts: c.stmts.push(edge), ..c };
        lemma_joined_push(p, order, c, edge);
        assert(declared(c.stmts, from));
        assert(declared(d.stmts, from));
        lemma_enter_virtual(p, order, d, v, sc.next as u128);
        assert(next =~= GraphScene { virtuals: d.virtuals.insert(v, sc.next as u128), ..d });
        lemma_keeps_all(p, sc, a, b, c);
        assert(keeps(p, d, next));
        lemma_keeps_all(p, sc, c, d, next);
    } else if g.kind(parent) is If {
        lemma_with_branch(p, order, sc, v, branch_label(index as int));
    } else {
        lemma_with_number(p, order, sc, parent);
        if !constant_node(p, parent) {
            assert(order.contains(parent));
        }
    }
}

/// An edge from a box that is declared right after it.
proof fn lemma_joined_copy(
    p: &GraphPlan,
    order: Seq<NodeId>,
    sc: GraphScene,
    edge: StmtModel,
    copy: StmtModel,
)
    requires
        joined(p, order, sc),
        edge matches StmtModel::Edge { from, to, .. } && declared(sc.stmts, to) && (
        copy matches StmtModel::Node { id: x, .. } && x == from),
    ensures
        joined(p, order, (GraphScene { stmts: sc.stmts.push(edge).push(copy), ..sc })),
        keeps(p, sc, (GraphScene { stmts: sc.stmts.push(edge).push(copy), ..sc })),
{
    let mid = sc.stmts.push(edge);
    let t = GraphScene { stmts: mid.push(copy), ..sc };
    assert forall|x: Seq<char>| #[trigger] declared(sc.stmts, x) implies declared(t.stmts, x) by {
        lemma_declared_push(sc.stmts, edge, x);
        lemma_declared_push(mid, copy, x);
    }
    assert forall|i: int| 0 <= i < t.stmts.len() implies ((
    #[trigger] t.stmts[i]) matches StmtModel::Edge { from, to, .. } ==> sound_end(
        p,
        order,
        t,
        from,
    ) && sound_end(p, order, t, to)) by {
        if let StmtModel::Edge { from, to, .. } = t.stmts[i] {
            if i < sc.stmts.len() {
                assert(t.stmts[i] == sc.stmts[i]);
                lemma_keeps_end(p, order, sc, t, from);
                lemma_keeps_end(p, order, sc, t, to);
            } else {
                lemma_declared_push(mid, copy, from);
            }
        }
    }
}

proof fn lemma_with_edge(
    p: &GraphPlan,
    order: Seq<NodeId>,
    sc: GraphScene,
    n: NodeId,
    id: Seq<char>,
    idx: int,
)
    requires
        p.f.g().valid(),
        p.f.g().has_node(n),
        0 <= idx < p.f.g().ins(n).len(),
        visible(p, p.f.g().producer(p.f.g().ins(n)[idx])) ==> order.contains(
            p.f.g().producer(p.f.g().ins(n)[idx]),
        ),
        joined(p, order, sc),
        declared(sc.stmts, id),
        sc.next + 2 <= u128::MAX,
    ensures
        ({
            let t = with_edge(p, sc, n, id, idx);
            &&& joined(p, order, t)
            &&& keeps(p, sc, t)
            &&& t.next <= sc.next + 2
        }),
{
    let g = p.f.g();
    let v = g.ins(n)[idx];
    let parent = g.producer(v);
    let t = with_edge(p, sc, n, id, idx);
    if !(address_edge(p, n, idx) || (!constant_node(p, parent) && !visible(p, parent))) {
        let (next, from) = with_source(p, sc, v);
        lemma_with_source(p, order, sc, n, idx);
        let edge = t.stmts[next.stmts.len() as int];
        assert(declared(next.stmts, id));
        if constant_node(p, parent) {
            let copy = const_box(p, parent, from);
            assert(t =~= GraphScene { stmts: next.stmts.push(edge).push(copy), ..next });
            lemma_joined_copy(p, order, next, edge, copy);
        } else {
            assert(t =~= GraphScene { stmts: next.stmts.push(edge), ..next });
            lemma_joined_push(p, order, next, edge);
        }
        lemma_keeps_all(p, sc, sc, next, t);
    }
}

/// Where every visible producer is listed with its readers.
spec fn lists_producers(p: &GraphPlan, order: Seq<NodeId>) -> bool {
    forall|n: NodeId, i: int|
        #![trigger order.contains(n), p.f.g().ins(n)[i]]
        order.contains(n) && 0 <= i < p.f.g().ins(n).len() && visible(
            p,
            p.f.g().producer(p.f.g().ins(n)[i]),
        ) ==> order.contains(p.f.g().producer(p.f.g().ins(n)[i]))
}

proof fn lemma_with_edges(
    p: &GraphPlan,
    order: Seq<NodeId>,
    sc: GraphScene,
    n: NodeId,
    id: Seq<char>,
    k: int,
)
    requires
        p.f.g().valid(),
        p.f.g().has_node(n),
        order.contains(n),
        lists_producers(p, order),
        0 <= k <= p.f.g().ins(n).len(),
        joined(p, order, sc),
        declared(sc.stmts, id),
        sc.next + 2 * k <= u128::MAX,
    ensures
        ({
            let t = with_edges(p, sc, n, id, k);
            &&& joined(p, order, t)
            &&& keeps(p, sc, t)
            &&& t.next <= sc.next + 2 * k
        }),
    decreases k,
{
    if k > 0 {
        lemma_with_edges(p, order, sc, n, id, k - 1);
        let u = with_edges(p, sc, n, id, k - 1);
        assert(order.contains(n) && p.f.g().ins(n)[k - 1] == p.f.g().ins(n)[k - 1]);
        assert(declared(u.stmts, id));
        lemma_with_edge(p, order, u, n, id, k - 1);
        lemma_keeps_all(p, sc, sc, u, with_edges(p, sc, n, id, k));
    }
}

/// How many numbers the first `k` nodes of a list may take.
pub(crate) open spec fn numbers_needed(p: &GraphPlan, order: Seq<NodeId>, k: int) -> nat
    decreases k,
{
    if k <= 0 {
        0
    } else {
        numbers_needed(p, order, k - 1) + 2 * p.f.g().ins(order[k - 1]).len() + 3
    }
}

proof fn lemma_with_node(p: &GraphPlan, order: Seq<NodeId>, sc: GraphScene, n: NodeId)
    requires
        p.f.g().valid(),
        p.f.g().has_node(n),
        order.contains(n),
        lists_producers(p, order),
        joined(p, order, sc),
        sc.next + 2 * p.f.g().ins(n).len() + 3 <= u128::MAX,
    ensures
        ({
            let t = with_node(p, sc, n);
            &&& joined(p, order, t)
            &&& keeps(p, sc, t)
            &&& t.next <= sc.next + 2 * p.f.g().ins(n).len() + 3
            &&& declares(p, n) ==> t.numbers.contains_key(n) && declared(
                t.stmts,
                dec(t.numbers[n] as nat),
            )
        }),
{
    if declares(p, n) {
        lemma_with_number(p, order, sc, n);
        let (a, id) = with_number(p, sc, n);
        let boxed = with_box(p, sc, n).0;
        let s = boxed.stmts.last();
        assert(boxed =~= GraphScene { stmts: a.stmts.push(s), ..a });
        lemma_joined_push(p, order, a, s);
        let branched = if p.f.g().kind(n) is If {
            with_branches(p, boxed, n, id, branch_count(p, n))
        } else {
            boxed
        };
        if p.f.g().kind(n) is If {
            lemma_with_branches(p, order, boxed, n, id, branch_count(p, n));
        }
        assert(keeps(p, boxed, branched));
        assert(declared(branched.stmts, id));
        lemma_with_edges(p, order, branched, n, id, p.f.g().ins(n).len() as int);
        let t = with_node(p, sc, n);
        lemma_keeps_all(p, sc, a, boxed, branched);
        lemma_keeps_all(p, sc, sc, branched, t);
        lemma_keeps_all(p, a, boxed, branched, t);
        assert(a.numbers.contains_key(n) && !constant_node(p, n));
        assert(declared(branched.stmts, id));
        assert(declared(t.stmts, id));
    }
}

proof fn lemma_with_nodes(p: &GraphPlan, order: Seq<NodeId>, k: int)
    requires
        p.f.g().valid(),
        forall|i: int| 0 <= i < order.len() ==> p.f.g().has_node(#[trigger] order[i]),
        lists_producers(p, order),
        0 <= k <= order.len(),
        numbers_needed(p, order, k) <= u128::MAX,
    ensures
        ({
            let t = with_nodes(p, blank(), order, k);
            &&& joined(p, order, t)
            &&& t.next <= numbers_needed(p, order, k)
            &&& forall|i: int|
                0 <= i < k && declares(p, #[trigger] order[i]) ==> t.numbers.contains_key(order[i])
                    && declared(t.stmts, dec(t.numbers[order[i]] as nat))
        }),
    decreases k,
{
    if k > 0 {
        lemma_with_nodes(p, order, k - 1);
        let u = with_nodes(p, blank(), order, k - 1);
        assert(order.contains(order[k - 1]));
        lemma_with_node(p, order, u, order[k - 1]);
        let t = with_nodes(p, blank(), order, k);
        assert forall|i: int| 0 <= i < k && declares(
            p,
            #[trigger] order[i],
        ) implies t.numbers.contains_key(order[i]) && declared(
            t.stmts,
            dec(t.numbers[order[i]] as nat),
        ) by {
            if i < k - 1 {
                assert(u.numbers.contains_key(order[i]) && !constant_node(p, order[i]));
                assert(declared(u.stmts, dec(u.numbers[order[i]] as nat)));
            }
        }
    }
}

proof fn lemma_numbers_bounded(p: &GraphPlan, order: Seq<NodeId>, k: int)
    requires
        p.f.g().valid(),
        forall|i: int| 0 <= i < order.len() ==> p.f.g().has_node(#[trigger] order[i]),
        0 <= k <= order.len(),
    ensures
        numbers_needed(p, order, k) <= k * 0x2_0000_0003,
    decreases k,
{
    if k > 0 {
        lemma_numbers_bounded(p, order, k - 1);
        assert(p.f.g().has_node(order[k - 1]));
        let n = order[k - 1].0 as int;
        assert(p.f.g().nodes[n].inputs.len() <= p.f.g().uses.len());
        assert(k * 0x2_0000_0003 == (k - 1) * 0x2_0000_0003 + 0x2_0000_0003) by (nonlinear_arith);
    }
}

proof fn lemma_shown(p: &GraphPlan, order: Seq<NodeId>, k: int)
    requires
        order.no_duplicates(),
        0 <= k <= order.len(),
    ensures
        shown_upto(p, order, k).no_duplicates(),
        forall|n: NodeId| #[trigger]
            shown_upto(p, order, k).contains(n) <==> order.take(k).contains(n) && visible(p, n),
    decreases k,
{
    if k > 0 {
        lemma_shown(p, order, k - 1);
        let rest = shown_upto(p, order, k - 1);
        let x = order[k - 1];
        assert(order.take(k) =~= order.take(k - 1).push(x));
        if rest.contains(x) {
            let i = order.take(k - 1).index_of(x);
            assert(order[i] == order[k - 1]);
        }
        assert forall|n: NodeId| #[trigger]
            shown_upto(p, order, k).contains(n) <==> order.take(k).contains(n) && visible(p, n) by {
            crate::entity_set::lemma_push_member(order.take(k - 1), x, n);
            crate::entity_set::lemma_push_member(rest, x, n);
        }
    }
}

/// What a drawing shows: what can be reached and passes the filter, each node
/// once.
pub proof fn law_drawn_nodes(d: &GraphDotDumper<'_>)
    requires
        d.wf(),
    ensures
        d.drawn().no_duplicates(),
        forall|n: NodeId| #[trigger]
            d.drawn().contains(n) <==> reachable(d.function.g(), d.entry, n) && visible(
                &d.plan(),
                n,
            ),
{
    d.function.lemma_wf();
    let walk = walk_order(d.function.g(), d.entry);
    law_walk_order(d.function.g(), d.entry);
    lemma_shown(&d.plan(), walk, walk.len() as int);
    assert(walk.take(walk.len() as int) =~= walk);
}

/// What is drawn is in the graph, and there are numbers enough for it.
pub(crate) proof fn lemma_drawn_fits(d: &GraphDotDumper<'_>, k: int)
    requires
        d.wf(),
        0 <= k <= d.drawn().len(),
    ensures
        d.plan().f.g().valid(),
        forall|i: int|
            0 <= i < d.drawn().len() ==> d.plan().f.g().has_node(#[trigger] d.drawn()[i]),
        numbers_needed(&d.plan(), d.drawn(), k) + 3 < u128::MAX,
{
    let p = d.plan();
    let g = p.f.g();
    let order = d.drawn();
    d.function.lemma_wf();
    law_drawn_nodes(d);
    assert forall|j: int| 0 <= j < order.len() implies g.has_node(#[trigger] order[j]) by {
        assert(order.contains(order[j]));
        crate::graph::walk::lemma_reachable_node(g, d.entry, order[j]);
    }
    lemma_numbers_bounded(&p, order, k);
    crate::entity_set::lemma_distinct_bounded(order, g.nodes.len());
    assert(k * 0x2_0000_0003 <= 0x1_0000_0000 * 0x2_0000_0003) by (nonlinear_arith)
        requires
            k <= 0x1_0000_0000,
    ;
}

/// Every edge of a drawing joins two boxes that the drawing declares.
pub proof fn law_graph_edges_join_declared_boxes(d: &GraphDotDumper<'_>, i: int)
    requires
        d.wf(),
        0 <= i < with_nodes(&d.plan(), blank(), d.drawn(), d.drawn().len() as int).stmts.len(),
    ensures
        ({
            let stmts = with_nodes(&d.plan(), blank(), d.drawn(), d.drawn().len() as int).stmts;
            stmts[i] matches StmtModel::Edge { from, to, .. } ==> declared(stmts, from) && declared(
                stmts,
                to,
            )
        }),
{
    let p = d.plan();
    let g = p.f.g();
    let order = d.drawn();
    law_drawn_nodes(d);
    lemma_drawn_fits(d, order.len() as int);
    assert forall|n: NodeId, j: int|
        #![trigger order.contains(n), p.f.g().ins(n)[j]]
        order.contains(n) && 0 <= j < p.f.g().ins(n).len() && visible(
            &p,
            p.f.g().producer(p.f.g().ins(n)[j]),
        ) implies order.contains(p.f.g().producer(p.f.g().ins(n)[j])) by {
        let parent = g.producer(g.ins(n)[j]);
        assert(feeds(g, n, parent));
        assert(steps_to(g, n, parent));
        lemma_reachable_step(g, d.entry, n, parent);
    }
    lemma_with_nodes(&p, order, order.len() as int);
    let sc = with_nodes(&p, blank(), order, order.len() as int);
    assert forall|id: Seq<char>| #[trigger] sound_end(&p, order, sc, id) implies declared(
        sc.stmts,
        id,
    ) by {
        if !declared(sc.stmts, id) {
            let m = choose|m: NodeId| #[trigger]
                order.contains(m) && declares(&p, m) && sc.numbers.contains_key(m) && id == dec(
                    sc.numbers[m] as nat,
                );
            let x = order.index_of(m);
            assert(declares(&p, order[x]));
        }
    }
    if let StmtModel::Edge { from, to, .. } = sc.stmts[i] {
        assert(sound_end(&p, order, sc, from));
        assert(sound_end(&p, order, sc, to));
    }
}

} // verus!
