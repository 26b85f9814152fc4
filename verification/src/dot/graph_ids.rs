//! The ids of a drawing of a graph: each is declared once.

use super::emitter::StmtModel;
use super::function_dot::{branch_label, virtual_id};
use super::graph_dot::{
    address_edge, blank, branch_count, const_box, constant_node, declares, visible, with_box,
    with_branch, with_branches, with_edge, with_edges, with_node, with_nodes, with_number,
    with_source, GraphDotDumper, GraphPlan, GraphScene,
};
use super::ids::{declared_once, law_ids_are_apart};
use super::joined::declared;
use super::joined_graph::{law_drawn_nodes, lemma_drawn_fits, numbers_needed};
use crate::fmt::dec;
use crate::node::{NodeId, ValueId};
use vstd::prelude::*;

verus! {

/// An id made of a number that was handed out.
spec fn handed_out(next: nat, id: Seq<char>) -> bool {
    exists|k: nat| k < next && (id == #[trigger] dec(k) || id == virtual_id(k))
}

/// A value of a branch or a call.
spec fn branches(p: &GraphPlan, v: ValueId) -> bool {
    p.f.g().kind(p.f.g().producer(v)) is If || p.f.g().kind(p.f.g().producer(v)) is Call
}

/// No two nodes go by one number, and every number was handed out.
pub open spec fn numbers_apart(sc: GraphScene) -> bool {
    &&& forall|n: NodeId| #[trigger] sc.numbers.contains_key(n) ==> sc.numbers[n] < sc.next
    &&& forall|n: NodeId, m: NodeId| #[trigger]
        sc.numbers.contains_key(n) && #[trigger] sc.numbers.contains_key(m) && sc.numbers[n]
            == sc.numbers[m] ==> n == m
}

/// What holds all along: every declared id is made of a number that was handed
/// out, boxes without a node stand for outputs of branches and calls, and the
/// box of a node that was not drawn yet is not declared.
spec fn tidy(p: &GraphPlan, done: Set<NodeId>, sc: GraphScene) -> bool {
    &&& numbers_apart(sc)
    &&& forall|v: ValueId| #[trigger] sc.virtuals.contains_key(v) ==> branches(p, v)
    &&& forall|i: int|
        0 <= i < sc.stmts.len() ==> ((#[trigger] sc.stmts[i]) matches StmtModel::Node { id, .. }
            ==> handed_out(sc.next, id))
    &&& forall|n: NodeId| #[trigger]
        sc.numbers.contains_key(n) && !constant_node(p, n) && !done.contains(n) ==> !declared(
            sc.stmts,
            dec(sc.numbers[n] as nat),
        )
    &&& declared_once(sc.stmts)
}

/// The numbers to come make ids that are not declared yet.
proof fn lemma_fresh(p: &GraphPlan, done: Set<NodeId>, sc: GraphScene, k: nat)
    requires
        tidy(p, done, sc),
        sc.next <= k,
    ensures
        !declared(sc.stmts, virtual_id(k)),
        !declared(sc.stmts, dec(k)),
{
    assert forall|id: Seq<char>| #[trigger] declared(sc.stmts, id) implies id != virtual_id(k)
        && id != dec(k) by {
        let i = choose|i: int|
            0 <= i < sc.stmts.len() && ((#[trigger] sc.stmts[i]) matches StmtModel::Node {
                id: x,
                ..
            } && x == id);
        assert(handed_out(sc.next, id));
        let j = choose|j: nat| j < sc.next && (id == #[trigger] dec(j) || id == virtual_id(j));
        law_ids_are_apart(j, k);
        law_ids_are_apart(k, j);
    }
}

proof fn lemma_still_handed_out(a: nat, b: nat, id: Seq<char>)
    requires
        handed_out(a, id),
        a <= b,
    ensures
        handed_out(b, id),
{
    let k = choose|k: nat| k < a && (id == #[trigger] dec(k) || id == virtual_id(k));
    assert(k < b && (id == dec(k) || id == virtual_id(k)));
}

/// What is declared once a statement is added.
proof fn lemma_push_declares(stmts: Seq<StmtModel>, s: StmtModel, id: Seq<char>)
    requires
        declared(stmts.push(s), id),
    ensures
        declared(stmts, id) || (s matches StmtModel::Node { id: x, .. } && x == id),
{
    let after = stmts.push(s);
    let i = choose|i: int|
        0 <= i < after.len() && ((#[trigger] after[i]) matches StmtModel::Node { id: x, .. } && x
            == id);
    if i < stmts.len() {
        assert(stmts[i] == after[i]);
    }
}

/// A statement is added; the id it declares, if it declares one, is new, and
/// that of no node yet to be drawn.
proof fn lemma_push(
    p: &GraphPlan,
    done: Set<NodeId>,
    more: Set<NodeId>,
    a: GraphScene,
    b: GraphScene,
    s: StmtModel,
)
    requires
        tidy(p, done, a),
        done.subset_of(more),
        b.stmts == a.stmts.push(s),
        b.numbers == a.numbers,
        a.next <= b.next,
        forall|v: ValueId| #[trigger] b.virtuals.contains_key(v) ==> branches(p, v),
        s matches StmtModel::Node { id, .. } ==> !declared(a.stmts, id) && handed_out(b.next, id)
            && forall|n: NodeId| #[trigger]
            a.numbers.contains_key(n) && !constant_node(p, n) && !more.contains(n) ==> id != dec(
                a.numbers[n] as nat,
            ),
    ensures
        tidy(p, more, b),
{
    assert forall|i: int| 0 <= i < b.stmts.len() implies ((
    #[trigger] b.stmts[i]) matches StmtModel::Node { id, .. } ==> handed_out(b.next, id)) by {
        if i < a.stmts.len() {
            assert(b.stmts[i] == a.stmts[i]);
            if let StmtModel::Node { id, .. } = a.stmts[i] {
                lemma_still_handed_out(a.next, b.next, id);
            }
        }
    }
    assert forall|n: NodeId| #[trigger]
        b.numbers.contains_key(n) && !constant_node(p, n) && !more.contains(n) implies !declared(
        b.stmts,
        dec(b.numbers[n] as nat),
    ) by {
        assert(a.numbers.contains_key(n) && !done.contains(n));
        if declared(b.stmts, dec(b.numbers[n] as nat)) {
            lemma_push_declares(a.stmts, s, dec(b.numbers[n] as nat));
        }
    }
    assert forall|i: int, j: int|
        #![trigger b.stmts[i], b.stmts[j]]
        0 <= i < j < b.stmts.len() implies (b.stmts[i] matches StmtModel::Node { id: x, .. } ==> (
    b.stmts[j] matches StmtModel::Node { id: y, .. } ==> x != y)) by {
        if j < a.stmts.len() {
            assert(b.stmts[i] == a.stmts[i] && b.stmts[j] == a.stmts[j]);
        } else if let StmtModel::Node { id: x, .. } = b.stmts[i] {
            assert(a.stmts[i] == b.stmts[i]);
            assert(declared(a.stmts, x));
        }
    }
}

/// A node gets its number.
proof fn lemma_with_number(p: &GraphPlan, done: Set<NodeId>, sc: GraphScene, n: NodeId)
    requires
        tidy(p, done, sc),
        sc.next < u128::MAX,
    ensures
        ({
            let (t, id) = with_number(p, sc, n);
            &&& tidy(p, done, t)
            &&& sc.next <= t.next <= sc.next + 1
            &&& t.stmts == sc.stmts
            &&& t.virtuals == sc.virtuals
            &&& t.numbers.contains_key(n)
            &&& id == dec(t.numbers[n] as nat)
            &&& constant_node(p, n) || !done.contains(n) ==> !declared(t.stmts, id)
        }),
{
    let (t, id) = with_number(p, sc, n);
    lemma_fresh(p, done, sc, sc.next);
    assert forall|a: NodeId, b: NodeId| #[trigger]
        t.numbers.contains_key(a) && #[trigger] t.numbers.contains_key(b) && t.numbers[a]
            == t.numbers[b] implies a == b by {
        assert(a == n || sc.numbers.contains_key(a));
        assert(b == n || sc.numbers.contains_key(b));
    }
    assert forall|i: int| 0 <= i < t.stmts.len() implies ((
    #[trigger] t.stmts[i]) matches StmtModel::Node { id, .. } ==> handed_out(t.next, id)) by {
        if let StmtModel::Node { id: x, .. } = t.stmts[i] {
            assert(sc.stmts[i] == t.stmts[i]);
            lemma_still_handed_out(sc.next, t.next, x);
        }
    }
    assert forall|m: NodeId| #[trigger]
        t.numbers.contains_key(m) && !constant_node(p, m) && !done.contains(m) implies !declared(
        t.stmts,
        dec(t.numbers[m] as nat),
    ) by {
        if m != n {
            assert(sc.numbers.contains_key(m));
        }
    }
}

/// A box for a value is declared and entered.
proof fn lemma_enter(p: &GraphPlan, done: Set<NodeId>, sc: GraphScene, t: GraphScene, v: ValueId)
    requires
        tidy(p, done, sc),
        branches(p, v),
        t.stmts.len() == sc.stmts.len() + 1,
        t.stmts == sc.stmts.push(t.stmts.last()),
        t.stmts.last() matches StmtModel::Node { id, .. } && id == virtual_id(sc.next),
        t.virtuals == sc.virtuals.insert(v, sc.next as u128),
        t.next == sc.next + 1,
        t.numbers == sc.numbers,
    ensures
        tidy(p, done, t),
{
    lemma_fresh(p, done, sc, sc.next);
    assert(handed_out(t.next, virtual_id(sc.next))) by {
        assert(sc.next < t.next && (virtual_id(sc.next) == dec(sc.next) || virtual_id(sc.next)
            == virtual_id(sc.next)));
    }
    assert forall|w: ValueId| #[trigger] t.virtuals.contains_key(w) implies branches(p, w) by {
        if w != v {
            assert(sc.virtuals.contains_key(w));
        }
    }
    assert forall|n: NodeId| #[trigger]
        sc.numbers.contains_key(n) && !constant_node(p, n) && !done.contains(n) implies virtual_id(
        sc.next,
    ) != dec(sc.numbers[n] as nat) by {
        law_ids_are_apart(sc.next, sc.numbers[n] as nat);
    }
    lemma_push(p, done, done, sc, t, t.stmts.last());
}

proof fn lemma_with_branch(
    p: &GraphPlan,
    done: Set<NodeId>,
    sc: GraphScene,
    v: ValueId,
    label: Seq<char>,
)
    requires
        tidy(p, done, sc),
        branches(p, v),
    ensures
        ({
            let t = with_branch(sc, v, label).0;
            &&& tidy(p, done, t)
            &&& sc.next <= t.next <= sc.next + 1
        }),
{
    let t = with_branch(sc, v, label).0;
    if !sc.virtuals.contains_key(v) {
        assert(t.stmts =~= sc.stmts.push(t.stmts.last()));
        lemma_enter(p, done, sc, t, v);
    }
}

proof fn lemma_with_branches(
    p: &GraphPlan,
    done: Set<NodeId>,
    sc: GraphScene,
    n: NodeId,
    id: Seq<char>,
    k: int,
)
    requires
        p.f.g().valid(),
        p.f.g().has_node(n),
        p.f.g().kind(n) is If,
        tidy(p, done, sc),
        k <= p.f.g().outs(n).len(),
    ensures
        ({
            let t = with_branches(p, sc, n, id, k);
            &&& tidy(p, done, t)
            &&& sc.next <= t.next
            &&& t.next <= sc.next + (if k < 0 {
                0
            } else {
                k
            })
        }),
    decreases k,
{
    if k > 0 {
        let g = p.f.g();
        lemma_with_branches(p, done, sc, n, id, k - 1);
        let u = with_branches(p, sc, n, id, k - 1);
        let v = g.outs(n)[k - 1];
        assert(g.nodes[n.0 as int].outputs[k - 1] == v && g.output_ok(n.0 as int, k - 1));
        lemma_with_branch(p, done, u, v, branch_label(k - 1));
        let next = with_branch(u, v, branch_label(k - 1)).0;
        let t = with_branches(p, sc, n, id, k);
        assert(t.stmts =~= next.stmts.push(t.stmts.last()));
        lemma_push(p, done, done, next, t, t.stmts.last());
    }
}

proof fn lemma_with_source(p: &GraphPlan, done: Set<NodeId>, sc: GraphScene, v: ValueId)
    requires
        tidy(p, done, sc),
        sc.next + 2 < u128::MAX,
    ensures
        ({
            let parent = p.f.g().producer(v);
            let (t, from) = with_source(p, sc, v);
            &&& tidy(p, done, t)
            &&& sc.next <= t.next <= sc.next + 2
            &&& constant_node(p, parent) ==> !declared(t.stmts, from) && t.numbers.contains_key(
                parent,
            ) && from == dec(t.numbers[parent] as nat)
        }),
{
    let g = p.f.g();
    let parent = g.producer(v);
    let index = g.values[v.0 as int].index;
    let (t, from) = with_source(p, sc, v);
    if sc.virtuals.contains_key(v) {
        assert(branches(p, v));
    } else if g.kind(parent) is Call && index >= 2 {
        let mid = GraphScene {
            stmts: sc.stmts.push(t.stmts[sc.stmts.len() as int]),
            virtuals: sc.virtuals.insert(v, sc.next as u128),
            next: sc.next + 1,
            ..sc
        };
        assert(mid.stmts.last() == t.stmts[sc.stmts.len() as int]);
        lemma_enter(p, done, sc, mid, v);
        lemma_with_number(p, done, mid, parent);
        let numbered = with_number(p, mid, parent).0;
        assert(t.stmts =~= numbered.stmts.push(t.stmts.last()));
        lemma_push(p, done, done, numbered, t, t.stmts.last());
    } else if g.kind(parent) is If {
        lemma_with_branch(p, done, sc, v, branch_label(index as int));
    } else {
        lemma_with_number(p, done, sc, parent);
    }
}

proof fn lemma_with_edge(
    p: &GraphPlan,
    done: Set<NodeId>,
    sc: GraphScene,
    n: NodeId,
    id: Seq<char>,
    idx: int,
)
    requires
        tidy(p, done, sc),
        sc.next + 2 < u128::MAX,
    ensures
        ({
            let t = with_edge(p, sc, n, id, idx);
            &&& tidy(p, done, t)
            &&& sc.next <= t.next <= sc.next + 2
        }),
{
    let v = p.f.g().ins(n)[idx];
    let parent = p.f.g().producer(v);
    let t = with_edge(p, sc, n, id, idx);
    if !(address_edge(p, n, idx) || (!constant_node(p, parent) && !visible(p, parent))) {
        lemma_with_source(p, done, sc, v);
        let (next, from) = with_source(p, sc, v);
        let edge = t.stmts[next.stmts.len() as int];
        let mid = GraphScene { stmts: next.stmts.push(edge), ..next };
        lemma_push(p, done, done, next, mid, edge);
        if constant_node(p, parent) {
            let copy = const_box(p, parent, from);
            assert(t.stmts =~= mid.stmts.push(copy));
            if declared(mid.stmts, from) {
                lemma_push_declares(next.stmts, edge, from);
            }
            let own = mid.numbers[parent] as nat;
            assert(handed_out(mid.next, from)) by {
                assert(own < mid.next && (from == dec(own) || from == virtual_id(own)));
            }
            assert forall|m: NodeId| #[trigger]
                mid.numbers.contains_key(m) && !constant_node(p, m) && !done.contains(
                    m,
                ) implies from != dec(mid.numbers[m] as nat) by {
                law_ids_are_apart(own, mid.numbers[m] as nat);
            }
            lemma_push(p, done, done, mid, t, copy);
        } else {
            assert(t =~= mid);
        }
    }
}

proof fn lemma_with_edges(
    p: &GraphPlan,
    done: Set<NodeId>,
    sc: GraphScene,
    n: NodeId,
    id: Seq<char>,
    k: int,
)
    requires
        tidy(p, done, sc),
        0 <= k,
        sc.next + 2 * k < u128::MAX,
    ensures
        ({
            let t = with_edges(p, sc, n, id, k);
            &&& tidy(p, done, t)
            &&& sc.next <= t.next <= sc.next + 2 * k
        }),
    decreases k,
{
    if k > 0 {
        lemma_with_edges(p, done, sc, n, id, k - 1);
        lemma_with_edge(p, done, with_edges(p, sc, n, id, k - 1), n, id, k - 1);
    }
}

proof fn lemma_with_node(p: &GraphPlan, done: Set<NodeId>, sc: GraphScene, n: NodeId)
    requires
        p.f.g().valid(),
        p.f.g().has_node(n),
        tidy(p, done, sc),
        !done.contains(n),
        sc.next + 2 * p.f.g().ins(n).len() + 3 < u128::MAX,
    ensures
        ({
            let t = with_node(p, sc, n);
            &&& tidy(p, done.insert(n), t)
            &&& sc.next <= t.next <= sc.next + 2 * p.f.g().ins(n).len() + 3
        }),
{
    let more = done.insert(n);
    if declares(p, n) {
        lemma_with_number(p, done, sc, n);
        let (numbered, id) = with_number(p, sc, n);
        let boxed = with_box(p, sc, n).0;
        let own = numbered.numbers[n] as nat;
        assert(handed_out(numbered.next, id)) by {
            assert(own < numbered.next && (id == dec(own) || id == virtual_id(own)));
        }
        assert forall|m: NodeId| #[trigger]
            numbered.numbers.contains_key(m) && !constant_node(p, m) && !more.contains(
                m,
            ) implies id != dec(numbered.numbers[m] as nat) by {
            law_ids_are_apart(own, numbered.numbers[m] as nat);
        }
        assert(boxed.stmts =~= numbered.stmts.push(boxed.stmts.last()));
        lemma_push(p, done, more, numbered, boxed, boxed.stmts.last());
        let branched = if p.f.g().kind(n) is If {
            with_branches(p, boxed, n, id, branch_count(p, n))
        } else {
            boxed
        };
        if p.f.g().kind(n) is If {
            lemma_with_branches(p, more, boxed, n, id, branch_count(p, n));
        }
        lemma_with_edges(p, more, branched, n, id, p.f.g().ins(n).len() as int);
    }
}

proof fn lemma_with_nodes(p: &GraphPlan, order: Seq<NodeId>, k: int)
    requires
        p.f.g().valid(),
        order.no_duplicates(),
        forall|i: int| 0 <= i < order.len() ==> p.f.g().has_node(#[trigger] order[i]),
        0 <= k <= order.len(),
        numbers_needed(p, order, k) + 3 < u128::MAX,
    ensures
        ({
            let t = with_nodes(p, blank(), order, k);
            &&& tidy(p, order.take(k).to_set(), t)
            &&& t.next <= numbers_needed(p, order, k)
        }),
    decreases k,
{
    if k > 0 {
        lemma_with_nodes(p, order, k - 1);
        let u = with_nodes(p, blank(), order, k - 1);
        let n = order[k - 1];
        let done = order.take(k - 1).to_set();
        assert(!done.contains(n)) by {
            if order.take(k - 1).contains(n) {
                let j = order.take(k - 1).index_of(n);
                assert(order[j] == order[k - 1]);
            }
        }
        lemma_with_node(p, done, u, n);
        assert(order.take(k) =~= order.take(k - 1).push(n));
        assert(done.insert(n) =~= order.take(k).to_set()) by {
            assert forall|m: NodeId| done.insert(n).contains(m) <==> #[trigger] order.take(
                k,
            ).to_set().contains(m) by {
                crate::entity_set::lemma_push_member(order.take(k - 1), n, m);
            }
        }
    }
}

/// No id of a drawing is declared twice.
pub proof fn law_no_graph_id_is_declared_twice(d: &GraphDotDumper<'_>)
    requires
        d.wf(),
    ensures
        declared_once(
            with_nodes(&d.plan(), blank(), d.drawn(), d.drawn().len() as int).stmts,
        ),
{
    law_drawn_nodes(d);
    lemma_drawn_fits(d, d.drawn().len() as int);
    lemma_with_nodes(&d.plan(), d.drawn(), d.drawn().len() as int);
}

/// No two nodes of a drawing go by one number.
pub proof fn law_graph_numbers_are_apart(d: &GraphDotDumper<'_>)
    requires
        d.wf(),
    ensures
        numbers_apart(with_nodes(&d.plan(), blank(), d.drawn(), d.drawn().len() as int)),
{
    law_drawn_nodes(d);
    lemma_drawn_fits(d, d.drawn().len() as int);
    lemma_with_nodes(&d.plan(), d.drawn(), d.drawn().len() as int);
}

} // verus!
