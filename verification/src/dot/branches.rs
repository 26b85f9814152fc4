//! The branches of an `If` are drawn as two boxes, and what reads a branch is
//! fed from its box.

use super::emitter::{edge_stmt, node_stmt, AttrModel, StmtModel};
use super::function_dot::{
    blank, branch_count, branch_edge, branch_label, declares, edge_attrs, edge_label, in_view,
    per_use, virtual_id, with_box, with_branch, with_branches, with_edge, with_edges, with_node,
    with_nodes, with_source, FunctionDotDumper, Plan, Scene,
};
use super::ids::{law_ids_are_apart, lemma_numbers_taken, numbers_taken};
use super::style::edge_look;
use crate::fmt::dec;
use crate::node::{NodeId, ValueId};
use vstd::prelude::*;

verus! {

/// The box of a branch.
pub open spec fn branch_box(p: &Plan, sc: Scene, v: ValueId) -> StmtModel {
    node_stmt(
        virtual_id(sc.virtuals[v] as nat),
        branch_label(p.f.g().values[v.0 as int].index as int),
        "trapezium"@,
        seq![("fillcolor"@, "\"#3a2a10\""@)],
    )
}

/// The edge from an `If` to the box of its `k`-th branch.
pub open spec fn branch_link(p: &Plan, sc: Scene, n: NodeId, k: int) -> StmtModel {
    edge_stmt(
        dec(n.0 as nat),
        virtual_id(sc.virtuals[p.f.g().outs(n)[k]] as nat),
        branch_edge(
            if k == 0 {
                "true"@
            } else {
                "false"@
            },
        ),
    )
}

/// The edge from the box of a branch to an input that reads it.
pub open spec fn branch_feed(p: &Plan, sc: Scene, m: NodeId, idx: int) -> StmtModel {
    edge_stmt(
        virtual_id(sc.virtuals[p.f.g().ins(m)[idx]] as nat),
        dec(m.0 as nat),
        edge_attrs(edge_look(p.f.g().kind(m), idx).1, edge_label(p, m, idx)),
    )
}

/// A value that an `If` defines.
pub open spec fn is_branch(p: &Plan, v: ValueId) -> bool {
    p.f.g().kind(p.f.g().producer(v)) is If
}

/// An edge that leaves an `If` leads to the box of one of its branches.
pub open spec fn leaves_by_box(p: &Plan, sc: Scene, n: NodeId, to: Seq<char>) -> bool {
    exists|v: ValueId| #[trigger]
        sc.virtuals.contains_key(v) && p.f.g().producer(v) == n && to == virtual_id(
            sc.virtuals[v] as nat,
        )
}

spec fn edge_ok(p: &Plan, sc: Scene, s: StmtModel) -> bool {
    forall|n: NodeId|
        p.f.g().kind(n) is If ==> (s matches StmtModel::Edge { from, to, .. } ==> (from == #[trigger]
        dec(n.0 as nat) ==> leaves_by_box(p, sc, n, to)))
}

/// Input `idx` of `m` is fed from the box of the branch it reads.
spec fn fed(p: &Plan, sc: Scene, m: NodeId, idx: int) -> bool {
    let v = p.f.g().ins(m)[idx];
    is_branch(p, v) && in_view(p, p.f.g().producer(v)) ==> sc.virtuals.contains_key(v)
        && sc.stmts.contains(branch_feed(p, sc, m, idx))
}

spec fn linked(p: &Plan, sc: Scene, n: NodeId, k: int) -> bool {
    sc.virtuals.contains_key(p.f.g().outs(n)[k]) && sc.stmts.contains(branch_link(p, sc, n, k))
}

/// What holds all along of the boxes of branches, and of the nodes drawn so
/// far.
spec fn wired(p: &Plan, done: Set<NodeId>, sc: Scene) -> bool {
    &&& forall|v: ValueId| #[trigger] sc.virtuals.contains_key(v) ==> sc.virtuals[v] < sc.next
    &&& forall|v: ValueId, w: ValueId| #[trigger]
        sc.virtuals.contains_key(v) && #[trigger] sc.virtuals.contains_key(w) && sc.virtuals[v]
            == sc.virtuals[w] ==> v == w
    &&& forall|v: ValueId| #[trigger]
        sc.virtuals.contains_key(v) && is_branch(p, v) ==> sc.stmts.contains(branch_box(p, sc, v))
    &&& forall|i: int| 0 <= i < sc.stmts.len() ==> edge_ok(p, sc, #[trigger] sc.stmts[i])
    &&& forall|n: NodeId, k: int|
        #![trigger done.contains(n), p.f.g().outs(n)[k]]
        done.contains(n) && p.f.g().kind(n) is If && 0 <= k < branch_count(p, n) ==> linked(
            p,
            sc,
            n,
            k,
        )
    &&& forall|m: NodeId, idx: int|
        #![trigger done.contains(m), p.f.g().ins(m)[idx]]
        done.contains(m) && declares(p, m) && 0 <= idx < p.f.g().ins(m).len() ==> fed(
            p,
            sc,
            m,
            idx,
        )
}

/// A later scene: statements and boxes were added.
spec fn goes_on(a: Scene, b: Scene) -> bool {
    &&& a.next <= b.next
    &&& a.stmts.len() <= b.stmts.len()
    &&& forall|i: int| 0 <= i < a.stmts.len() ==> #[trigger] b.stmts[i] == a.stmts[i]
    &&& forall|v: ValueId| #[trigger]
        a.virtuals.contains_key(v) ==> b.virtuals.contains_key(v) && b.virtuals[v] == a.virtuals[v]
}

proof fn lemma_goes_on(a: Scene, b: Scene, c: Scene)
    requires
        goes_on(a, b),
        goes_on(b, c),
    ensures
        goes_on(a, c),
{
    assert forall|i: int| 0 <= i < a.stmts.len() implies #[trigger] c.stmts[i] == a.stmts[i] by {
        assert(b.stmts[i] == a.stmts[i]);
    }
    assert forall|v: ValueId| #[trigger] a.virtuals.contains_key(v) implies c.virtuals.contains_key(
        v,
    ) && c.virtuals[v] == a.virtuals[v] by {
        assert(b.virtuals.contains_key(v));
    }
}

proof fn lemma_still_there(a: Scene, b: Scene, s: StmtModel)
    requires
        goes_on(a, b),
        a.stmts.contains(s),
    ensures
        b.stmts.contains(s),
{
    let i = a.stmts.index_of(s);
    assert(b.stmts[i] == s);
}

/// A scene goes on: what was wired stays so, and what is new must be.
proof fn lemma_wired_on(p: &Plan, done: Set<NodeId>, a: Scene, b: Scene)
    requires
        wired(p, done, a),
        goes_on(a, b),
        forall|v: ValueId| #[trigger]
            b.virtuals.contains_key(v) && !a.virtuals.contains_key(v) ==> a.next <= b.virtuals[v]
                < b.next && (is_branch(p, v) ==> b.stmts.contains(branch_box(p, b, v))),
        forall|v: ValueId, w: ValueId| #[trigger]
            b.virtuals.contains_key(v) && #[trigger] b.virtuals.contains_key(w)
                && !a.virtuals.contains_key(v) && !a.virtuals.contains_key(w) ==> v == w,
        forall|i: int|
            a.stmts.len() <= i < b.stmts.len() ==> edge_ok(p, b, #[trigger] b.stmts[i]),
    ensures
        wired(p, done, b),
{
    assert forall|v: ValueId| #[trigger] b.virtuals.contains_key(v) implies b.virtuals[v]
        < b.next by {
        if a.virtuals.contains_key(v) {
            assert(a.virtuals[v] < a.next);
        }
    }
    assert forall|v: ValueId, w: ValueId| #[trigger]
        b.virtuals.contains_key(v) && #[trigger] b.virtuals.contains_key(w) && b.virtuals[v]
            == b.virtuals[w] implies v == w by {
        if a.virtuals.contains_key(v) {
            assert(a.virtuals[v] < a.next);
        }
        if a.virtuals.contains_key(w) {
            assert(a.virtuals[w] < a.next);
        }
    }
    assert forall|v: ValueId| #[trigger]
        b.virtuals.contains_key(v) && is_branch(p, v) implies b.stmts.contains(
        branch_box(p, b, v),
    ) by {
        if a.virtuals.contains_key(v) {
            assert(branch_box(p, a, v) == branch_box(p, b, v));
            lemma_still_there(a, b, branch_box(p, a, v));
        }
    }
    assert forall|i: int| 0 <= i < b.stmts.len() implies edge_ok(p, b, #[trigger] b.stmts[i]) by {
        if i < a.stmts.len() {
            assert(b.stmts[i] == a.stmts[i]);
            assert(edge_ok(p, a, a.stmts[i]));
            lemma_edge_ok_on(p, a, b, a.stmts[i]);
        }
    }
    assert forall|n: NodeId, k: int|
        #![trigger done.contains(n), p.f.g().outs(n)[k]]
        done.contains(n) && p.f.g().kind(n) is If && 0 <= k < branch_count(p, n) implies linked(
        p,
        b,
        n,
        k,
    ) by {
        assert(linked(p, a, n, k));
        lemma_linked_on(p, a, b, n, k);
    }
    assert forall|m: NodeId, idx: int|
        #![trigger done.contains(m), p.f.g().ins(m)[idx]]
        done.contains(m) && declares(p, m) && 0 <= idx < p.f.g().ins(m).len() implies fed(
        p,
        b,
        m,
        idx,
    ) by {
        assert(fed(p, a, m, idx));
        lemma_fed_on(p, a, b, m, idx);
    }
}

proof fn lemma_edge_ok_on(p: &Plan, a: Scene, b: Scene, s: StmtModel)
    requires
        goes_on(a, b),
        edge_ok(p, a, s),
    ensures
        edge_ok(p, b, s),
{
    if let StmtModel::Edge { from, to, .. } = s {
        assert forall|n: NodeId|
            p.f.g().kind(n) is If && from == #[trigger] dec(n.0 as nat) implies leaves_by_box(
            p,
            b,
            n,
            to,
        ) by {
            assert(leaves_by_box(p, a, n, to));
            let v = choose|v: ValueId| #[trigger]
                a.virtuals.contains_key(v) && p.f.g().producer(v) == n && to == virtual_id(
                    a.virtuals[v] as nat,
                );
            assert(b.virtuals.contains_key(v));
        }
    }
}

proof fn lemma_linked_on(p: &Plan, a: Scene, b: Scene, n: NodeId, k: int)
    requires
        goes_on(a, b),
        linked(p, a, n, k),
    ensures
        linked(p, b, n, k),
{
    assert(a.virtuals.contains_key(p.f.g().outs(n)[k]));
    assert(branch_link(p, a, n, k) == branch_link(p, b, n, k));
    lemma_still_there(a, b, branch_link(p, a, n, k));
}

proof fn lemma_fed_on(p: &Plan, a: Scene, b: Scene, m: NodeId, idx: int)
    requires
        goes_on(a, b),
        fed(p, a, m, idx),
    ensures
        fed(p, b, m, idx),
{
    let v = p.f.g().ins(m)[idx];
    if is_branch(p, v) && in_view(p, p.f.g().producer(v)) {
        assert(a.virtuals.contains_key(v));
        assert(branch_feed(p, a, m, idx) == branch_feed(p, b, m, idx));
        lemma_still_there(a, b, branch_feed(p, a, m, idx));
    }
}

proof fn lemma_push(p: &Plan, done: Set<NodeId>, a: Scene, b: Scene, s: StmtModel)
    requires
        wired(p, done, a),
        b.stmts == a.stmts.push(s),
        b.virtuals == a.virtuals,
        a.next <= b.next,
        edge_ok(p, a, s),
    ensures
        wired(p, done, b),
        goes_on(a, b),
        b.stmts.contains(s),
{
    assert(b.stmts[a.stmts.len() as int] == s);
    lemma_edge_ok_on(p, a, b, s);
    lemma_wired_on(p, done, a, b);
}

proof fn lemma_with_branch(p: &Plan, done: Set<NodeId>, sc: Scene, v: ValueId, label: Seq<char>)
    requires
        wired(p, done, sc),
        sc.next < u128::MAX,
        label == branch_label(p.f.g().values[v.0 as int].index as int),
    ensures
        ({
            let (t, id) = with_branch(sc, v, label);
            &&& wired(p, done, t)
            &&& goes_on(sc, t)
            &&& t.next <= sc.next + 1
            &&& t.virtuals.contains_key(v)
            &&& id == virtual_id(t.virtuals[v] as nat)
        }),
{
    let (t, id) = with_branch(sc, v, label);
    if !sc.virtuals.contains_key(v) {
        assert(t.virtuals[v] == sc.next as u128);
        assert(t.stmts[sc.stmts.len() as int] == branch_box(p, t, v));
        assert forall|w: ValueId| #[trigger]
            t.virtuals.contains_key(w) && !sc.virtuals.contains_key(w) implies w == v by {}
        lemma_wired_on(p, done, sc, t);
    }
}

proof fn lemma_with_branches(p: &Plan, done: Set<NodeId>, sc: Scene, n: NodeId, k: int)
    requires
        p.f.g().valid(),
        p.f.g().has_node(n),
        p.f.g().kind(n) is If,
        wired(p, done, sc),
        sc.next + 2 < u128::MAX,
        k <= branch_count(p, n),
    ensures
        ({
            let t = with_branches(p, sc, n, dec(n.0 as nat), k);
            &&& wired(p, done, t)
            &&& goes_on(sc, t)
            &&& t.next <= sc.next + (if k < 0 {
                0
            } else {
                k
            })
            &&& forall|j: int| 0 <= j < k ==> #[trigger] linked(p, t, n, j)
        }),
    decreases k,
{
    if k > 0 {
        let g = p.f.g();
        let id = dec(n.0 as nat);
        lemma_with_branches(p, done, sc, n, k - 1);
        let u = with_branches(p, sc, n, id, k - 1);
        let v = g.outs(n)[k - 1];
        assert(g.nodes[n.0 as int].outputs[k - 1] == v && g.output_ok(n.0 as int, k - 1));
        lemma_with_branch(p, done, u, v, branch_label(k - 1));
        let (next, to) = with_branch(u, v, branch_label(k - 1));
        let t = with_branches(p, sc, n, id, k);
        let s = branch_link(p, next, n, k - 1);
        assert(t.stmts =~= next.stmts.push(s));
        assert(edge_ok(p, next, s)) by {
            assert forall|m: NodeId|
                p.f.g().kind(m) is If && id == #[trigger] dec(m.0 as nat) implies leaves_by_box(
                p,
                next,
                m,
                to,
            ) by {
                law_ids_are_apart(n.0 as nat, m.0 as nat);
                assert(next.virtuals.contains_key(v));
            }
        }
        lemma_push(p, done, next, t, s);
        assert(linked(p, t, n, k - 1));
        lemma_goes_on(u, next, t);
        lemma_goes_on(sc, u, t);
        assert forall|j: int| 0 <= j < k implies #[trigger] linked(p, t, n, j) by {
            if j < k - 1 {
                assert(linked(p, u, n, j));
                lemma_linked_on(p, u, t, n, j);
            }
        }
    }
}

/// An edge from an id that is not that of an `If`.
proof fn lemma_other_edge(p: &Plan, sc: Scene, from: Seq<char>, to: Seq<char>, attrs: Seq<AttrModel>)
    requires
        forall|n: NodeId| p.f.g().kind(n) is If ==> from != #[trigger] dec(n.0 as nat),
    ensures
        edge_ok(p, sc, edge_stmt(from, to, attrs)),
{
}

/// The id that an edge leaves from is not that of an `If`.
proof fn lemma_with_source(p: &Plan, done: Set<NodeId>, sc: Scene, v: ValueId)
    requires
        wired(p, done, sc),
        sc.next + 2 < u128::MAX,
    ensures
        ({
            let (t, from) = with_source(p, sc, v);
            &&& wired(p, done, t)
            &&& goes_on(sc, t)
            &&& t.next <= sc.next + 2
            &&& is_branch(p, v) ==> t.virtuals.contains_key(v) && from == virtual_id(
                t.virtuals[v] as nat,
            )
            &&& forall|n: NodeId| p.f.g().kind(n) is If ==> from != #[trigger] dec(n.0 as nat)
        }),
{
    let g = p.f.g();
    let parent = g.producer(v);
    let index = g.values[v.0 as int].index;
    let (t, from) = with_source(p, sc, v);
    if sc.virtuals.contains_key(v) {
        assert forall|n: NodeId| g.kind(n) is If implies from != #[trigger] dec(n.0 as nat) by {
            law_ids_are_apart(sc.virtuals[v] as nat, n.0 as nat);
        }
    } else if g.kind(parent) is Call && index >= 2 {
        let call = dec(parent.0 as nat);
        let mid = Scene { stmts: sc.stmts.push(t.stmts[sc.stmts.len() as int]), ..t };
        assert(t.stmts =~= mid.stmts.push(t.stmts.last()));
        assert(mid.virtuals[v] == sc.next as u128);
        assert forall|w: ValueId| #[trigger]
            mid.virtuals.contains_key(w) && !sc.virtuals.contains_key(w) implies w == v by {}
        lemma_wired_on(p, done, sc, mid);
        assert forall|n: NodeId| g.kind(n) is If implies call != #[trigger] dec(n.0 as nat) by {
            law_ids_are_apart(parent.0 as nat, n.0 as nat);
        }
        assert forall|n: NodeId| g.kind(n) is If implies from != #[trigger] dec(n.0 as nat) by {
            law_ids_are_apart(sc.next, n.0 as nat);
        }
        lemma_push(p, done, mid, t, t.stmts.last());
        lemma_goes_on(sc, mid, t);
    } else if g.kind(parent) is If {
        lemma_with_branch(p, done, sc, v, branch_label(index as int));
        assert forall|n: NodeId| g.kind(n) is If implies from != #[trigger] dec(n.0 as nat) by {
            law_ids_are_apart(t.virtuals[v] as nat, n.0 as nat);
        }
    } else {
        lemma_wired_on(p, done, sc, t);
        assert forall|n: NodeId| g.kind(n) is If implies from != #[trigger] dec(n.0 as nat) by {
            law_ids_are_apart(parent.0 as nat, n.0 as nat);
            law_ids_are_apart(sc.next, n.0 as nat);
        }
    }
}

proof fn lemma_with_edge(p: &Plan, done: Set<NodeId>, sc: Scene, m: NodeId, idx: int)
    requires
        wired(p, done, sc),
        sc.next + 2 < u128::MAX,
    ensures
        ({
            let t = with_edge(p, sc, m, dec(m.0 as nat), idx);
            &&& wired(p, done, t)
            &&& goes_on(sc, t)
            &&& t.next <= sc.next + 2
            &&& fed(p, t, m, idx)
        }),
{
    let v = p.f.g().ins(m)[idx];
    let parent = p.f.g().producer(v);
    let id = dec(m.0 as nat);
    let t = with_edge(p, sc, m, id, idx);
    if in_view(p, parent) {
        lemma_with_source(p, done, sc, v);
        let (next, from) = with_source(p, sc, v);
        let attrs = edge_attrs(edge_look(p.f.g().kind(m), idx).1, edge_label(p, m, idx));
        let edge = edge_stmt(from, id, attrs);
        let mid = Scene { stmts: next.stmts.push(edge), ..next };
        lemma_other_edge(p, next, from, id, attrs);
        lemma_push(p, done, next, mid, edge);
        if is_branch(p, v) {
            assert(edge == branch_feed(p, mid, m, idx));
        }
        lemma_goes_on(sc, next, mid);
        if per_use(p, parent) {
            let copy = t.stmts.last();
            assert(t.stmts =~= mid.stmts.push(copy));
            lemma_push(p, done, mid, t, copy);
            lemma_goes_on(sc, mid, t);
        } else {
            assert(t =~= mid);
        }
    }
}

proof fn lemma_with_edges(p: &Plan, done: Set<NodeId>, sc: Scene, m: NodeId, k: int)
    requires
        wired(p, done, sc),
        0 <= k,
        sc.next + 2 * k < u128::MAX,
    ensures
        ({
            let t = with_edges(p, sc, m, dec(m.0 as nat), k);
            &&& wired(p, done, t)
            &&& goes_on(sc, t)
            &&& t.next <= sc.next + 2 * k
            &&& forall|j: int| 0 <= j < k ==> #[trigger] fed(p, t, m, j)
        }),
    decreases k,
{
    if k > 0 {
        let id = dec(m.0 as nat);
        lemma_with_edges(p, done, sc, m, k - 1);
        let u = with_edges(p, sc, m, id, k - 1);
        lemma_with_edge(p, done, u, m, k - 1);
        let t = with_edges(p, sc, m, id, k);
        lemma_goes_on(sc, u, t);
        assert forall|j: int| 0 <= j < k implies #[trigger] fed(p, t, m, j) by {
            if j < k - 1 {
                assert(fed(p, u, m, j));
                lemma_fed_on(p, u, t, m, j);
            }
        }
    }
}

proof fn lemma_with_node(p: &Plan, done: Set<NodeId>, sc: Scene, n: NodeId)
    requires
        p.f.g().valid(),
        p.f.g().has_node(n),
        wired(p, done, sc),
        sc.next + 2 * p.f.g().ins(n).len() + 3 < u128::MAX,
    ensures
        ({
            let t = with_node(p, sc, n);
            &&& wired(p, done.insert(n), t)
            &&& goes_on(sc, t)
            &&& t.next <= sc.next + 2 * p.f.g().ins(n).len() + 2
        }),
{
    let g = p.f.g();
    let t = with_node(p, sc, n);
    let more = done.insert(n);
    if declares(p, n) {
        let id = dec(n.0 as nat);
        let boxed = with_box(p, sc, n);
        assert(boxed.stmts =~= sc.stmts.push(boxed.stmts.last()));
        lemma_push(p, done, sc, boxed, boxed.stmts.last());
        let branched = if g.kind(n) is If {
            with_branches(p, boxed, n, id, branch_count(p, n))
        } else {
            boxed
        };
        if g.kind(n) is If {
            lemma_with_branches(p, done, boxed, n, branch_count(p, n));
        }
        lemma_with_edges(p, done, branched, n, g.ins(n).len() as int);
        lemma_goes_on(sc, boxed, branched);
        lemma_goes_on(sc, branched, t);
        assert forall|m: NodeId, k: int|
            #![trigger more.contains(m), g.outs(m)[k]]
            more.contains(m) && g.kind(m) is If && 0 <= k < branch_count(p, m) implies linked(
            p,
            t,
            m,
            k,
        ) by {
            if m == n {
                assert(linked(p, branched, n, k));
                lemma_linked_on(p, branched, t, n, k);
            } else {
                assert(done.contains(m));
            }
        }
        assert forall|m: NodeId, idx: int|
            #![trigger more.contains(m), g.ins(m)[idx]]
            more.contains(m) && declares(p, m) && 0 <= idx < g.ins(m).len() implies fed(
            p,
            t,
            m,
            idx,
        ) by {
            if m == n {
                assert(fed(p, t, n, idx));
            } else {
                assert(done.contains(m));
            }
        }
    } else {
        assert(!(g.kind(n) is If));
        assert forall|m: NodeId, k: int|
            #![trigger more.contains(m), g.outs(m)[k]]
            more.contains(m) && g.kind(m) is If && 0 <= k < branch_count(p, m) implies linked(
            p,
            t,
            m,
            k,
        ) by {
            assert(done.contains(m));
        }
        assert forall|m: NodeId, idx: int|
            #![trigger more.contains(m), g.ins(m)[idx]]
            more.contains(m) && declares(p, m) && 0 <= idx < g.ins(m).len() implies fed(
            p,
            t,
            m,
            idx,
        ) by {
            assert(done.contains(m));
        }
    }
}

proof fn lemma_with_nodes(p: &Plan, order: Seq<NodeId>, k: int)
    requires
        p.f.g().valid(),
        order.no_duplicates(),
        forall|i: int| 0 <= i < order.len() ==> p.f.g().has_node(#[trigger] order[i]),
        0 <= k <= order.len(),
    ensures
        ({
            let t = with_nodes(p, blank(), order, k);
            &&& wired(p, order.take(k).to_set(), t)
            &&& t.next <= numbers_taken(p, order, k)
        }),
    decreases k,
{
    lemma_numbers_taken(p, order, k);
    if k > 0 {
        lemma_with_nodes(p, order, k - 1);
        let u = with_nodes(p, blank(), order, k - 1);
        let done = order.take(k - 1).to_set();
        lemma_numbers_taken(p, order, k);
        lemma_with_node(p, done, u, order[k - 1]);
        assert(order.take(k) =~= order.take(k - 1).push(order[k - 1]));
        assert(done.insert(order[k - 1]) =~= order.take(k).to_set()) by {
            assert forall|m: NodeId| done.insert(order[k - 1]).contains(m) <==> #[trigger] order.take(
                k,
            ).to_set().contains(m) by {
                crate::entity_set::lemma_push_member(order.take(k - 1), order[k - 1], m);
            }
        }
    } else {
        assert(order.take(0) =~= Seq::empty());
        assert(wired(p, order.take(0).to_set(), blank()));
    }
}

/// Each branch of an `If` has one box; the `If` has an edge to it, labelled
/// `true` or `false`, every input in the drawing that reads the branch is fed
/// from the box, and no edge leaves the `If` but to the boxes of its branches.
pub proof fn law_branches_feed_their_readers(
    d: &FunctionDotDumper<'_>,
    order: Seq<NodeId>,
    n: NodeId,
    k: int,
)
    requires
        d.wf(),
        d.draws(order),
        order.contains(n),
        d.function.g().kind(n) is If,
        0 <= k < branch_count(&d.plan(), n),
    ensures
        ({
            let p = d.plan();
            let g = d.function.g();
            let v = g.outs(n)[k];
            let sc = with_nodes(&p, blank(), order, order.len() as int);
            &&& sc.virtuals.contains_key(v)
            &&& forall|w: ValueId| #[trigger]
                sc.virtuals.contains_key(w) && sc.virtuals[w] == sc.virtuals[v] ==> w == v
            &&& sc.stmts.contains(branch_box(&p, sc, v))
            &&& sc.stmts.contains(branch_link(&p, sc, n, k))
            &&& forall|m: NodeId, idx: int|
                #![trigger order.contains(m), g.ins(m)[idx]]
                order.contains(m) && declares(&p, m) && 0 <= idx < g.ins(m).len() && g.ins(m)[idx]
                    == v ==> sc.stmts.contains(branch_feed(&p, sc, m, idx))
            &&& forall|i: int|
                0 <= i < sc.stmts.len() ==> ((#[trigger] sc.stmts[i]) matches StmtModel::Edge {
                    from,
                    to,
                    ..
                } ==> (from == dec(n.0 as nat) ==> leaves_by_box(&p, sc, n, to)))
        }),
{
    d.function.lemma_wf();
    let p = d.plan();
    let g = d.function.g();
    let v = g.outs(n)[k];
    lemma_with_nodes(&p, order, order.len() as int);
    let sc = with_nodes(&p, blank(), order, order.len() as int);
    let done = order.take(order.len() as int).to_set();
    assert(order.take(order.len() as int) =~= order);
    assert(done.contains(n) && p.f.g().outs(n)[k] == v);
    assert(linked(&p, sc, n, k));
    let x = order.index_of(n);
    assert(g.has_node(order[x]));
    assert(g.nodes[n.0 as int].outputs[k] == v && g.output_ok(n.0 as int, k));
    assert(in_view(&p, n));
    assert forall|m: NodeId, idx: int|
        #![trigger order.contains(m), g.ins(m)[idx]]
        order.contains(m) && declares(&p, m) && 0 <= idx < g.ins(m).len() && g.ins(m)[idx]
            == v implies sc.stmts.contains(branch_feed(&p, sc, m, idx)) by {
        assert(done.contains(m) && p.f.g().ins(m)[idx] == v);
        assert(fed(&p, sc, m, idx));
    }
    assert forall|i: int| 0 <= i < sc.stmts.len() implies ((
    #[trigger] sc.stmts[i]) matches StmtModel::Edge { from, to, .. } ==> (from == dec(n.0 as nat)
        ==> leaves_by_box(&p, sc, n, to))) by {
        assert(edge_ok(&p, sc, sc.stmts[i]));
    }
}

} // verus!
