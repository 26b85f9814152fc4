//! Every edge of a drawing joins two boxes that it declares.

use super::emitter::StmtModel;
use super::function_dot::{
    blank, branch_count, const_box, declares, in_view, per_use, virtual_id, with_box, with_branch,
    with_branches, with_edge, with_edges, with_id, with_node, with_nodes, with_source,
    FunctionDotDumper, Plan, Scene,
};
use super::ids::{lemma_numbers_taken, numbers_taken};
use crate::fmt::dec;
use crate::graph::walk::{law_walk_order, lemma_reachable_step, steps_to};
use crate::node::{NodeId, ValueId};
use vstd::prelude::*;

verus! {

/// A statement declares the box `id`.
pub open spec fn declared(stmts: Seq<StmtModel>, id: Seq<char>) -> bool {
    exists|i: int|
        0 <= i < stmts.len() && ((#[trigger] stmts[i]) matches StmtModel::Node { id: x, .. } && x
            == id)
}

/// The box of a node that is yet to come.
spec fn promised(p: &Plan, order: Seq<NodeId>, id: Seq<char>) -> bool {
    exists|m: NodeId| #[trigger] order.contains(m) && declares(p, m) && id == dec(m.0 as nat)
}

spec fn sound_end(p: &Plan, order: Seq<NodeId>, stmts: Seq<StmtModel>, id: Seq<char>) -> bool {
    declared(stmts, id) || promised(p, order, id)
}

/// Every edge joins boxes that are declared or yet to come, and so is every
/// box that stands for no node.
spec fn joined(p: &Plan, order: Seq<NodeId>, sc: Scene) -> bool {
    &&& forall|i: int|
        0 <= i < sc.stmts.len() ==> ((#[trigger] sc.stmts[i]) matches StmtModel::Edge {
            from,
            to,
            ..
        } ==> sound_end(p, order, sc.stmts, from) && sound_end(p, order, sc.stmts, to))
    &&& forall|v: ValueId| #[trigger]
        sc.virtuals.contains_key(v) ==> declared(sc.stmts, virtual_id(sc.virtuals[v] as nat))
}

/// What is declared stays so.
pub(crate) proof fn lemma_declared_push(stmts: Seq<StmtModel>, s: StmtModel, id: Seq<char>)
    ensures
        declared(stmts, id) ==> declared(stmts.push(s), id),
        s matches StmtModel::Node { id: x, .. } ==> declared(stmts.push(s), x),
{
    let all = stmts.push(s);
    if declared(stmts, id) {
        let i = choose|i: int|
            0 <= i < stmts.len() && ((#[trigger] stmts[i]) matches StmtModel::Node { id: x, .. }
                && x == id);
        assert(all[i] == stmts[i]);
    }
    assert(all[stmts.len() as int] == s);
}

/// A statement is added whose ends, if it is an edge, are sound.
proof fn lemma_joined_push(p: &Plan, order: Seq<NodeId>, sc: Scene, s: StmtModel)
    requires
        joined(p, order, sc),
        s matches StmtModel::Edge { from, to, .. } ==> sound_end(p, order, sc.stmts, from)
            && sound_end(p, order, sc.stmts, to),
    ensures
        joined(p, order, (Scene { stmts: sc.stmts.push(s), ..sc })),
{
    let all = sc.stmts.push(s);
    assert forall|i: int| 0 <= i < all.len() implies ((#[trigger] all[i]) matches StmtModel::Edge {
        from,
        to,
        ..
    } ==> sound_end(p, order, all, from) && sound_end(p, order, all, to)) by {
        if let StmtModel::Edge { from, to, .. } = all[i] {
            if i < sc.stmts.len() {
                assert(all[i] == sc.stmts[i]);
            }
            lemma_declared_push(sc.stmts, s, from);
            lemma_declared_push(sc.stmts, s, to);
        }
    }
    assert forall|v: ValueId| #[trigger] sc.virtuals.contains_key(v) implies declared(
        all,
        virtual_id(sc.virtuals[v] as nat),
    ) by {
        lemma_declared_push(sc.stmts, s, virtual_id(sc.virtuals[v] as nat));
    }
}

proof fn lemma_with_branch(p: &Plan, order: Seq<NodeId>, sc: Scene, v: ValueId, label: Seq<char>)
    requires
        joined(p, order, sc),
        sc.next <= u128::MAX,
    ensures
        ({
            let (t, id) = with_branch(sc, v, label);
            &&& joined(p, order, t)
            &&& declared(t.stmts, id)
            &&& sc.next <= t.next <= sc.next + 1
            &&& forall|x: Seq<char>| #[trigger] declared(sc.stmts, x) ==> declared(t.stmts, x)
        }),
{
    let (t, id) = with_branch(sc, v, label);
    if !sc.virtuals.contains_key(v) {
        let s = t.stmts.last();
        assert(t.stmts =~= sc.stmts.push(s));
        lemma_joined_push(p, order, sc, s);
        lemma_declared_push(sc.stmts, s, id);
        assert forall|w: ValueId| #[trigger] t.virtuals.contains_key(w) implies declared(
            t.stmts,
            virtual_id(t.virtuals[w] as nat),
        ) by {
            if w != v {
                assert(sc.virtuals.contains_key(w));
                lemma_declared_push(sc.stmts, s, virtual_id(sc.virtuals[w] as nat));
            }
        }
        assert forall|x: Seq<char>| #[trigger] declared(sc.stmts, x) implies declared(
            t.stmts,
            x,
        ) by {
            lemma_declared_push(sc.stmts, s, x);
        }
    }
}

proof fn lemma_with_branches(
    p: &Plan,
    order: Seq<NodeId>,
    sc: Scene,
    n: NodeId,
    id: Seq<char>,
    k: int,
)
    requires
        joined(p, order, sc),
        declared(sc.stmts, id),
        sc.next + 2 <= u128::MAX,
        k <= 2,
    ensures
        ({
            let t = with_branches(p, sc, n, id, k);
            &&& joined(p, order, t)
            &&& sc.next <= t.next
            &&& t.next <= sc.next + (if k < 0 {
                0
            } else {
                k
            })
            &&& forall|x: Seq<char>| #[trigger] declared(sc.stmts, x) ==> declared(t.stmts, x)
        }),
    decreases k,
{
    if k > 0 {
        lemma_with_branches(p, order, sc, n, id, k - 1);
        let u = with_branches(p, sc, n, id, k - 1);
        let label = super::function_dot::branch_label(k - 1);
        lemma_with_branch(p, order, u, p.f.g().outs(n)[k - 1], label);
        let (next, to) = with_branch(u, p.f.g().outs(n)[k - 1], label);
        let t = with_branches(p, sc, n, id, k);
        let s = t.stmts.last();
        assert(t.stmts =~= next.stmts.push(s));
        lemma_joined_push(p, order, next, s);
        assert forall|x: Seq<char>| #[trigger] declared(sc.stmts, x) implies declared(
            t.stmts,
            x,
        ) by {
            assert(declared(u.stmts, x));
            lemma_declared_push(next.stmts, s, x);
        }
    }
}

/// The box of a node that something reads comes, if the node does.
proof fn lemma_read_promised(p: &Plan, order: Seq<NodeId>, n: NodeId, idx: int)
    requires
        p.f.g().valid(),
        p.f.g().has_node(n),
        0 <= idx < p.f.g().ins(n).len(),
        order.contains(p.f.g().producer(p.f.g().ins(n)[idx])),
        !per_use(p, p.f.g().producer(p.f.g().ins(n)[idx])),
    ensures
        promised(p, order, dec(p.f.g().producer(p.f.g().ins(n)[idx]).0 as nat)),
{
    let g = p.f.g();
    let v = g.ins(n)[idx];
    let parent = g.producer(v);
    assert(g.nodes[n.0 as int].inputs[idx] == g.slots(n)[idx]);
    assert(g.slot_ok(n.0 as int, idx));
    assert(g.lists[v.0 as int].contains(g.slots(n)[idx]));
    assert(g.value_ok(v.0 as int));
    assert(declares(p, parent));
}

proof fn lemma_with_edge(
    p: &Plan,
    order: Seq<NodeId>,
    sc: Scene,
    n: NodeId,
    id: Seq<char>,
    idx: int,
)
    requires
        p.f.g().valid(),
        p.f.g().has_node(n),
        0 <= idx < p.f.g().ins(n).len(),
        in_view(p, p.f.g().producer(p.f.g().ins(n)[idx])) ==> order.contains(
            p.f.g().producer(p.f.g().ins(n)[idx]),
        ),
        joined(p, order, sc),
        declared(sc.stmts, id),
        sc.next + 2 <= u128::MAX,
    ensures
        ({
            let t = with_edge(p, sc, n, id, idx);
            &&& joined(p, order, t)
            &&& sc.next <= t.next <= sc.next + 2
            &&& forall|x: Seq<char>| #[trigger] declared(sc.stmts, x) ==> declared(t.stmts, x)
        }),
{
    let g = p.f.g();
    let v = g.ins(n)[idx];
    let parent = g.producer(v);
    let t = with_edge(p, sc, n, id, idx);
    if in_view(p, parent) {
        let (next, from) = with_source(p, sc, v);
        let index = g.values[v.0 as int].index;
        if !per_use(p, parent) {
            lemma_read_promised(p, order, n, idx);
        }
        if sc.virtuals.contains_key(v) {
        } else if g.kind(parent) is Call && index >= 2 {
            let a = with_id(p, (Scene { next: sc.next + 1, ..sc }), parent).0;
            assert(!per_use(p, parent));
            assert(joined(p, order, a));
            let box_stmt = next.stmts[sc.stmts.len() as int];
            let edge = next.stmts[(sc.stmts.len() + 1) as int];
            let b = Scene { stmts: a.stmts.push(box_stmt), ..a };
            assert(next.stmts =~= a.stmts.push(box_stmt).push(edge));
            lemma_joined_push(p, order, a, box_stmt);
            lemma_declared_push(a.stmts, box_stmt, id);
            lemma_declared_push(a.stmts, box_stmt, from);
            let c = Scene { stmts: b.stmts.push(edge), ..b };
            lemma_joined_push(p, order, b, edge);
            lemma_declared_push(b.stmts, edge, id);
            lemma_declared_push(b.stmts, edge, from);
            assert forall|w: ValueId| #[trigger] next.virtuals.contains_key(w) implies declared(
                next.stmts,
                virtual_id(next.virtuals[w] as nat),
            ) by {
                if w != v {
                    assert(c.virtuals.contains_key(w));
                }
            }
            assert forall|x: Seq<char>| #[trigger] declared(sc.stmts, x) implies declared(
                next.stmts,
                x,
            ) by {
                lemma_declared_push(a.stmts, box_stmt, x);
                lemma_declared_push(b.stmts, edge, x);
            }
            assert(joined(p, order, next)) by {
                assert(c.stmts == next.stmts);
                assert forall|i: int| 0 <= i < next.stmts.len() implies ((
                #[trigger] next.stmts[i]) matches StmtModel::Edge { from, to, .. } ==> sound_end(
                    p,
                    order,
                    next.stmts,
                    from,
                ) && sound_end(p, order, next.stmts, to)) by {
                    assert(c.stmts[i] == next.stmts[i]);
                }
            }
        } else if g.kind(parent) is If {
            lemma_with_branch(
                p,
                order,
                sc,
                v,
                super::function_dot::branch_label(index as int),
            );
        } else {
            assert(next.stmts == sc.stmts && next.virtuals == sc.virtuals);
            assert(joined(p, order, next));
        }
        let edge = t.stmts[next.stmts.len() as int];
        if per_use(p, parent) && !sc.virtuals.contains_key(v) && !(g.kind(parent) is Call && index
            >= 2) && !(g.kind(parent) is If) {
            let copy = const_box(p, parent, from);
            assert(t.stmts =~= next.stmts.push(edge).push(copy));
            lemma_joined_copy(p, order, next, edge, copy, id);
        } else {
            let a = Scene { stmts: next.stmts.push(edge), ..next };
            lemma_joined_push(p, order, next, edge);
            if per_use(p, parent) {
                let copy = const_box(p, parent, from);
                assert(t.stmts =~= a.stmts.push(copy));
                lemma_joined_push(p, order, a, copy);
            } else {
                assert(t.stmts =~= a.stmts);
            }
        }
        assert forall|x: Seq<char>| #[trigger] declared(sc.stmts, x) implies declared(
            t.stmts,
            x,
        ) by {
            assert(declared(next.stmts, x));
            lemma_declared_push(next.stmts, edge, x);
            lemma_declared_push(next.stmts.push(edge), const_box(p, parent, from), x);
            if per_use(p, parent) {
                assert(t.stmts =~= next.stmts.push(edge).push(const_box(p, parent, from)));
            } else {
                assert(t.stmts =~= next.stmts.push(edge));
            }
        }
    }
}

/// An edge from a box that is declared right after it.
proof fn lemma_joined_copy(
    p: &Plan,
    order: Seq<NodeId>,
    sc: Scene,
    edge: StmtModel,
    copy: StmtModel,
    id: Seq<char>,
)
    requires
        joined(p, order, sc),
        declared(sc.stmts, id),
        edge matches StmtModel::Edge { from, to, .. } && to == id && (copy matches StmtModel::Node {
            id: x,
            ..
        } && x == from),
    ensures
        joined(p, order, (Scene { stmts: sc.stmts.push(edge).push(copy), ..sc })),
{
    let mid = sc.stmts.push(edge);
    let all = mid.push(copy);
    assert forall|i: int| 0 <= i < all.len() implies ((#[trigger] all[i]) matches StmtModel::Edge {
        from,
        to,
        ..
    } ==> sound_end(p, order, all, from) && sound_end(p, order, all, to)) by {
        if let StmtModel::Edge { from, to, .. } = all[i] {
            if i < sc.stmts.len() {
                assert(all[i] == sc.stmts[i]);
            }
            lemma_declared_push(sc.stmts, edge, from);
            lemma_declared_push(sc.stmts, edge, to);
            lemma_declared_push(mid, copy, from);
            lemma_declared_push(mid, copy, to);
        }
    }
    assert forall|v: ValueId| #[trigger] sc.virtuals.contains_key(v) implies declared(
        all,
        virtual_id(sc.virtuals[v] as nat),
    ) by {
        lemma_declared_push(sc.stmts, edge, virtual_id(sc.virtuals[v] as nat));
        lemma_declared_push(mid, copy, virtual_id(sc.virtuals[v] as nat));
    }
}

/// Where every producer in view is listed with its readers.
spec fn lists_producers(p: &Plan, order: Seq<NodeId>) -> bool {
    forall|n: NodeId, i: int|
        #![trigger order.contains(n), p.f.g().ins(n)[i]]
        order.contains(n) && 0 <= i < p.f.g().ins(n).len() && in_view(
            p,
            p.f.g().producer(p.f.g().ins(n)[i]),
        ) ==> order.contains(p.f.g().producer(p.f.g().ins(n)[i]))
}

proof fn lemma_with_edges(
    p: &Plan,
    order: Seq<NodeId>,
    sc: Scene,
    n: NodeId,
    id: Seq<char>,
    k: int,
)
    requires
        p.f.g().valid(),
        p.f.g().has_node(n),
        order.contains(n),
        lists_producers(p, order),
        0 <= k <= p.f.g().ins(n).len(),
        joined(p, order, sc),
        declared(sc.stmts, id),
        sc.next + 2 * k <= u128::MAX,
    ensures
        ({
            let t = with_edges(p, sc, n, id, k);
            &&& joined(p, order, t)
            &&& sc.next <= t.next <= sc.next + 2 * k
            &&& forall|x: Seq<char>| #[trigger] declared(sc.stmts, x) ==> declared(t.stmts, x)
        }),
    decreases k,
{
    if k > 0 {
        lemma_with_edges(p, order, sc, n, id, k - 1);
        let u = with_edges(p, sc, n, id, k - 1);
        assert(order.contains(n) && p.f.g().ins(n)[k - 1] == p.f.g().ins(n)[k - 1]);
        lemma_with_edge(p, order, u, n, id, k - 1);
    }
}

proof fn lemma_with_node(p: &Plan, order: Seq<NodeId>, sc: Scene, n: NodeId)
    requires
        p.f.g().valid(),
        p.f.g().has_node(n),
        order.contains(n),
        lists_producers(p, order),
        joined(p, order, sc),
        sc.next + 2 * p.f.g().ins(n).len() + 2 <= u128::MAX,
    ensures
        ({
            let t = with_node(p, sc, n);
            &&& joined(p, order, t)
            &&& t.next <= sc.next + 2 * p.f.g().ins(n).len() + 2
            &&& forall|x: Seq<char>| #[trigger] declared(sc.stmts, x) ==> declared(t.stmts, x)
            &&& declares(p, n) ==> declared(t.stmts, dec(n.0 as nat))
        }),
{
    if declares(p, n) {
        let id = dec(n.0 as nat);
        let a = with_id(p, sc, n).0;
        let boxed = with_box(p, sc, n);
        let s = boxed.stmts.last();
        assert(joined(p, order, a));
        assert(boxed.stmts =~= a.stmts.push(s));
        lemma_joined_push(p, order, a, s);
        lemma_declared_push(a.stmts, s, id);
        assert forall|x: Seq<char>| #[trigger] declared(sc.stmts, x) implies declared(
            boxed.stmts,
            x,
        ) by {
            lemma_declared_push(a.stmts, s, x);
        }
        let branched = if p.f.g().kind(n) is If {
            with_branches(p, boxed, n, id, branch_count(p, n))
        } else {
            boxed
        };
        if p.f.g().kind(n) is If {
            lemma_with_branches(p, order, boxed, n, id, branch_count(p, n));
        }
        lemma_with_edges(p, order, branched, n, id, p.f.g().ins(n).len() as int);
        let t = with_node(p, sc, n);
        assert forall|x: Seq<char>| #[trigger] declared(sc.stmts, x) implies declared(
            t.stmts,
            x,
        ) by {
            assert(declared(boxed.stmts, x));
            assert(declared(branched.stmts, x));
        }
    }
}

proof fn lemma_with_nodes(p: &Plan, order: Seq<NodeId>, k: int)
    requires
        p.f.g().valid(),
        forall|i: int| 0 <= i < order.len() ==> p.f.g().has_node(#[trigger] order[i]),
        lists_producers(p, order),
        0 <= k <= order.len(),
        numbers_taken(p, order, k) <= u128::MAX,
    ensures
        ({
            let t = with_nodes(p, blank(), order, k);
            &&& joined(p, order, t)
            &&& t.next <= numbers_taken(p, order, k)
            &&& forall|i: int|
                0 <= i < k && declares(p, #[trigger] order[i]) ==> declared(
                    t.stmts,
                    dec(order[i].0 as nat),
                )
        }),
    decreases k,
{
    if k > 0 {
        lemma_with_nodes(p, order, k - 1);
        let u = with_nodes(p, blank(), order, k - 1);
        assert(order.contains(order[k - 1]));
        lemma_with_node(p, order, u, order[k - 1]);
        let t = with_nodes(p, blank(), order, k);
        assert forall|i: int| 0 <= i < k && declares(p, #[trigger] order[i]) implies declared(
            t.stmts,
            dec(order[i].0 as nat),
        ) by {
            if i < k - 1 {
                assert(declared(u.stmts, dec(order[i].0 as nat)));
            }
        }
    }
}

/// Every edge of a drawing joins two boxes that the drawing declares.
pub proof fn law_edges_join_declared_boxes(d: &FunctionDotDumper<'_>, order: Seq<NodeId>, i: int)
    requires
        d.wf(),
        d.draws(order),
        0 <= i < with_nodes(&d.plan(), blank(), order, order.len() as int).stmts.len(),
    ensures
        ({
            let stmts = with_nodes(&d.plan(), blank(), order, order.len() as int).stmts;
            stmts[i] matches StmtModel::Edge { from, to, .. } ==> declared(stmts, from) && declared(
                stmts,
                to,
            )
        }),
{
    let p = d.plan();
    let g = p.f.g();
    d.function.lemma_wf();
    assert forall|n: NodeId, j: int|
        #![trigger order.contains(n), p.f.g().ins(n)[j]]
        order.contains(n) && 0 <= j < p.f.g().ins(n).len() && in_view(
            &p,
            p.f.g().producer(p.f.g().ins(n)[j]),
        ) implies order.contains(p.f.g().producer(p.f.g().ins(n)[j])) by {
        if d.nodes is None {
            let parent = g.producer(g.ins(n)[j]);
            law_walk_order(g, d.entry);
            assert(crate::graph::walk::feeds(g, n, parent));
            assert(steps_to(g, n, parent));
            lemma_reachable_step(g, d.entry, n, parent);
        }
    }
    lemma_numbers_taken(&p, order, order.len() as int);
    lemma_with_nodes(&p, order, order.len() as int);
    let sc = with_nodes(&p, blank(), order, order.len() as int);
    assert forall|id: Seq<char>| #[trigger] sound_end(&p, order, sc.stmts, id) implies declared(
        sc.stmts,
        id,
    ) by {
        if !declared(sc.stmts, id) {
            let m = choose|m: NodeId| #[trigger]
                order.contains(m) && declares(&p, m) && id == dec(m.0 as nat);
            let x = order.index_of(m);
            assert(declares(&p, order[x]));
        }
    }
    if let StmtModel::Edge { from, to, .. } = sc.stmts[i] {
        assert(sound_end(&p, order, sc.stmts, from));
        assert(sound_end(&p, order, sc.stmts, to));
    }
}

} // verus!
