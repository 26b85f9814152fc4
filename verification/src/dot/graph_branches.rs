//! The branches of an `If` in a drawing of a graph are two boxes, and what
//! reads a branch is fed from its box.

use super::emitter::{edge_stmt, node_stmt, StmtModel};
use super::function_dot::{branch_edge, branch_label, edge_attrs, virtual_id};
use super::graph_dot::{
    address_edge, blank, branch_count, const_box, constant_node, declares, edge_label, role_look,
    visible, with_box, with_branch, with_branches, with_edge, with_edges, with_node, with_nodes,
    with_number, with_source, GraphDotDumper, GraphPlan, GraphScene,
};
use super::graph_ids::numbers_apart;
use super::ids::law_ids_are_apart;
use super::joined_graph::{law_drawn_nodes, lemma_drawn_fits, numbers_needed};
use crate::fmt::dec;
use crate::node::{NodeId, ValueId};
use vstd::prelude::*;

verus! {

/// The id of the shared box of a node.
pub open spec fn own_id(sc: GraphScene, n: NodeId) -> Seq<char> {
    dec(sc.numbers[n] as nat)
}

/// The box of a branch.
pub open spec fn branch_box(p: &GraphPlan, sc: GraphScene, v: ValueId) -> StmtModel {
    node_stmt(
        virtual_id(sc.virtuals[v] as nat),
        branch_label(p.f.g().values[v.0 as int].index as int),
        "trapezium"@,
        seq![("fillcolor"@, "\"#3a2a10\""@)],
    )
}

/// The edge from an `If` to the box of its `k`-th branch.
pub open spec fn branch_link(p: &GraphPlan, sc: GraphScene, n: NodeId, k: int) -> StmtModel {
    edge_stmt(
        own_id(sc, n),
        virtual_id(sc.virtuals[p.f.g().outs(n)[k]] as nat),
        branch_edge(
            if k == 0 {
                "true"@
            } else {
                "false"@
            },
        ),
    )
}

/// The edge from the box of a branch to an input that reads it.
pub open spec fn branch_feed(p: &GraphPlan, sc: GraphScene, m: NodeId, idx: int) -> StmtModel {
    edge_stmt(
        virtual_id(sc.virtuals[p.f.g().ins(m)[idx]] as nat),
        own_id(sc, m),
        edge_attrs(role_look(p.f.g().kind(m), idx).1, edge_label(p, m, idx)),
    )
}

/// A value that an `If` defines.
spec fn is_branch(p: &GraphPlan, v: ValueId) -> bool {
    p.f.g().kind(p.f.g().producer(v)) is If
}

/// An edge that leaves an `If` leads to the box of one of its branches.
pub open spec fn leaves_by_box(p: &GraphPlan, sc: GraphScene, n: NodeId, to: Seq<char>) -> bool {
    exists|v: ValueId| #[trigger]
        sc.virtuals.contains_key(v) && p.f.g().producer(v) == n && to == virtual_id(
            sc.virtuals[v] as nat,
        )
}

/// An edge leaves from a box whose number was handed out, and from that of an
/// `If` only to its branches.
spec fn edge_ok(p: &GraphPlan, sc: GraphScene, s: StmtModel) -> bool {
    s matches StmtModel::Edge { from, to, .. } ==> {
        &&& forall|k: nat| sc.next <= k ==> from != #[trigger] dec(k)
        &&& forall|n: NodeId| #[trigger]
            sc.numbers.contains_key(n) && p.f.g().kind(n) is If && from == own_id(sc, n)
                ==> leaves_by_box(p, sc, n, to)
    }
}

/// Input `idx` of `m` is fed from the box of the branch it reads.
spec fn fed(p: &GraphPlan, sc: GraphScene, m: NodeId, idx: int) -> bool {
    let v = p.f.g().ins(m)[idx];
    is_branch(p, v) && visible(p, p.f.g().producer(v)) && !address_edge(p, m, idx)
        ==> sc.virtuals.contains_key(v) && sc.stmts.contains(branch_feed(p, sc, m, idx))
}

spec fn linked(p: &GraphPlan, sc: GraphScene, n: NodeId, k: int) -> bool {
    sc.virtuals.contains_key(p.f.g().outs(n)[k]) && sc.stmts.contains(branch_link(p, sc, n, k))
}

/// The boxes without a node have numbers of their own, and those of branches
/// are declared.
spec fn boxes_apart(p: &GraphPlan, sc: GraphScene) -> bool {
    &&& forall|v: ValueId| #[trigger] sc.virtuals.contains_key(v) ==> sc.virtuals[v] < sc.next
    &&& forall|v: ValueId, w: ValueId| #[trigger]
        sc.virtuals.contains_key(v) && #[trigger] sc.virtuals.contains_key(w) && sc.virtuals[v]
            == sc.virtuals[w] ==> v == w
    &&& forall|v: ValueId| #[trigger]
        sc.virtuals.contains_key(v) && is_branch(p, v) ==> sc.stmts.contains(branch_box(p, sc, v))
}

/// What holds all along of the boxes of branches, and of the nodes drawn so
/// far.
spec fn wired(p: &GraphPlan, done: Set<NodeId>, sc: GraphScene) -> bool {
    &&& numbers_apart(sc)
    &&& boxes_apart(p, sc)
    &&& forall|i: int| 0 <= i < sc.stmts.len() ==> edge_ok(p, sc, #[trigger] sc.stmts[i])
    &&& forall|n: NodeId| #[trigger]
        done.contains(n) && declares(p, n) ==> sc.numbers.contains_key(n)
    &&& forall|n: NodeId, k: int|
        #![trigger done.contains(n), p.f.g().outs(n)[k]]
        done.contains(n) && declares(p, n) && p.f.g().kind(n) is If && 0 <= k < branch_count(p, n)
            ==> linked(p, sc, n, k)
    &&& forall|m: NodeId, idx: int|
        #![trigger done.contains(m), p.f.g().ins(m)[idx]]
        done.contains(m) && declares(p, m) && 0 <= idx < p.f.g().ins(m).len() ==> fed(
            p,
            sc,
            m,
            idx,
        )
}

/// A later scene: statements, boxes and numbers were added.
spec fn goes_on(p: &GraphPlan, a: GraphScene, b: GraphScene) -> bool {
    &&& a.next <= b.next
    &&& a.stmts.len() <= b.stmts.len()
    &&& forall|i: int| 0 <= i < a.stmts.len() ==> #[trigger] b.stmts[i] == a.stmts[i]
    &&& forall|v: ValueId| #[trigger]
        a.virtuals.contains_key(v) ==> b.virtuals.contains_key(v) && b.virtuals[v] == a.virtuals[v]
    &&& forall|n: NodeId| #[trigger]
        a.numbers.contains_key(n) && !constant_node(p, n) ==> b.numbers.contains_key(n)
            && b.numbers[n] == a.numbers[n]
    &&& forall|n: NodeId| #[trigger]
        b.numbers.contains_key(n) && !constant_node(p, n) && !a.numbers.contains_key(n) ==> a.next
            <= b.numbers[n]
}

proof fn lemma_goes_on(p: &GraphPlan, a: GraphScene, b: GraphScene, c: GraphScene)
    requires
        goes_on(p, a, b),
        goes_on(p, b, c),
    ensures
        goes_on(p, a, c),
{
    assert forall|i: int| 0 <= i < a.stmts.len() implies #[trigger] c.stmts[i] == a.stmts[i] by {
        assert(b.stmts[i] == a.stmts[i]);
    }
    assert forall|v: ValueId| #[trigger] a.virtuals.contains_key(v) implies c.virtuals.contains_key(
        v,
    ) && c.virtuals[v] == a.virtuals[v] by {
        assert(b.virtuals.contains_key(v));
    }
    assert forall|n: NodeId| #[trigger]
        a.numbers.contains_key(n) && !constant_node(p, n) implies c.numbers.contains_key(n)
        && c.numbers[n] == a.numbers[n] by {
        assert(b.numbers.contains_key(n) && !constant_node(p, n));
    }
    assert forall|n: NodeId| #[trigger]
        c.numbers.contains_key(n) && !constant_node(p, n) && !a.numbers.contains_key(
            n,
        ) implies a.next <= c.numbers[n] by {
        if b.numbers.contains_key(n) {
            assert(a.next <= b.numbers[n]);
        }
    }
}

proof fn lemma_still_there(p: &GraphPlan, a: GraphScene, b: GraphScene, s: StmtModel)
    requires
        goes_on(p, a, b),
        a.stmts.contains(s),
    ensures
        b.stmts.contains(s),
{
    let i = a.stmts.index_of(s);
    assert(b.stmts[i] == s);
}

proof fn lemma_edge_ok_on(p: &GraphPlan, a: GraphScene, b: GraphScene, s: StmtModel)
    requires
        goes_on(p, a, b),
        edge_ok(p, a, s),
    ensures
        edge_ok(p, b, s),
{
    if let StmtModel::Edge { from, to, .. } = s {
        assert forall|n: NodeId| #[trigger]
            b.numbers.contains_key(n) && p.f.g().kind(n) is If && from == own_id(
                b,
                n,
            ) implies leaves_by_box(p, b, n, to) by {
            assert(!constant_node(p, n));
            if !a.numbers.contains_key(n) {
                assert(from != dec(b.numbers[n] as nat));
            }
            assert(leaves_by_box(p, a, n, to));
            let v = choose|v: ValueId| #[trigger]
                a.virtuals.contains_key(v) && p.f.g().producer(v) == n && to == virtual_id(
                    a.virtuals[v] as nat,
                );
            assert(b.virtuals.contains_key(v));
        }
    }
}

proof fn lemma_linked_on(p: &GraphPlan, a: GraphScene, b: GraphScene, n: NodeId, k: int)
    requires
        goes_on(p, a, b),
        a.numbers.contains_key(n),
        !constant_node(p, n),
        linked(p, a, n, k),
    ensures
        linked(p, b, n, k),
{
    assert(a.virtuals.contains_key(p.f.g().outs(n)[k]));
    assert(branch_link(p, a, n, k) == branch_link(p, b, n, k));
    lemma_still_there(p, a, b, branch_link(p, a, n, k));
}

proof fn lemma_fed_on(p: &GraphPlan, a: GraphScene, b: GraphScene, m: NodeId, idx: int)
    requires
        goes_on(p, a, b),
        a.numbers.contains_key(m),
        !constant_node(p, m),
        fed(p, a, m, idx),
    ensures
        fed(p, b, m, idx),
{
    let v = p.f.g().ins(m)[idx];
    if is_branch(p, v) && visible(p, p.f.g().producer(v)) && !address_edge(p, m, idx) {
        assert(a.virtuals.contains_key(v));
        assert(branch_feed(p, a, m, idx) == branch_feed(p, b, m, idx));
        lemma_still_there(p, a, b, branch_feed(p, a, m, idx));
    }
}

/// A scene goes on: what was wired stays so, and what is new must be.
proof fn lemma_wired_on(p: &GraphPlan, done: Set<NodeId>, a: GraphScene, b: GraphScene)
    requires
        wired(p, done, a),
        goes_on(p, a, b),
        numbers_apart(b),
        boxes_apart(p, b),
        forall|i: int|
            a.stmts.len() <= i < b.stmts.len() ==> edge_ok(p, b, #[trigger] b.stmts[i]),
    ensures
        wired(p, done, b),
{
    assert forall|i: int| 0 <= i < b.stmts.len() implies edge_ok(p, b, #[trigger] b.stmts[i]) by {
        if i < a.stmts.len() {
            assert(b.stmts[i] == a.stmts[i]);
            lemma_edge_ok_on(p, a, b, a.stmts[i]);
        }
    }
    assert forall|n: NodeId| #[trigger]
        done.contains(n) && declares(p, n) implies b.numbers.contains_key(n) by {
        assert(a.numbers.contains_key(n));
    }
    assert forall|n: NodeId, k: int|
        #![trigger done.contains(n), p.f.g().outs(n)[k]]
        done.contains(n) && declares(p, n) && p.f.g().kind(n) is If && 0 <= k < branch_count(
            p,
            n,
        ) implies linked(p, b, n, k) by {
        assert(linked(p, a, n, k));
        lemma_linked_on(p, a, b, n, k);
    }
    assert forall|m: NodeId, idx: int|
        #![trigger done.contains(m), p.f.g().ins(m)[idx]]
        done.contains(m) && declares(p, m) && 0 <= idx < p.f.g().ins(m).len() implies fed(
        p,
        b,
        m,
        idx,
    ) by {
        assert(fed(p, a, m, idx));
        lemma_fed_on(p, a, b, m, idx);
    }
}

/// Where no box was added.
proof fn lemma_boxes_kept(p: &GraphPlan, a: GraphScene, b: GraphScene)
    requires
        boxes_apart(p, a),
        goes_on(p, a, b),
        b.virtuals == a.virtuals,
    ensures
        boxes_apart(p, b),
{
    assert forall|v: ValueId| #[trigger]
        b.virtuals.contains_key(v) && is_branch(p, v) implies b.stmts.contains(
        branch_box(p, b, v),
    ) by {
        assert(branch_box(p, a, v) == branch_box(p, b, v));
        lemma_still_there(p, a, b, branch_box(p, a, v));
    }
}

/// Where the box of one value was added.
proof fn lemma_boxes_entered(p: &GraphPlan, a: GraphScene, b: GraphScene, v: ValueId)
    requires
        boxes_apart(p, a),
        goes_on(p, a, b),
        a.next < b.next,
        a.next <= u128::MAX,
        b.virtuals == a.virtuals.insert(v, a.next as u128),
        !a.virtuals.contains_key(v),
        is_branch(p, v) ==> b.stmts.contains(branch_box(p, b, v)),
    ensures
        boxes_apart(p, b),
{
    assert forall|w: ValueId| #[trigger] b.virtuals.contains_key(w) implies b.virtuals[w]
        < b.next by {
        if w != v {
            assert(a.virtuals.contains_key(w));
        }
    }
    assert forall|w: ValueId, x: ValueId| #[trigger]
        b.virtuals.contains_key(w) && #[trigger] b.virtuals.contains_key(x) && b.virtuals[w]
            == b.virtuals[x] implies w == x by {
        assert(w == v || a.virtuals.contains_key(w));
        assert(x == v || a.virtuals.contains_key(x));
    }
    assert forall|w: ValueId| #[trigger]
        b.virtuals.contains_key(w) && is_branch(p, w) implies b.stmts.contains(
        branch_box(p, b, w),
    ) by {
        if w != v {
            assert(a.virtuals.contains_key(w));
            assert(branch_box(p, a, w) == branch_box(p, b, w));
            lemma_still_there(p, a, b, branch_box(p, a, w));
        }
    }
}

proof fn lemma_push(p: &GraphPlan, done: Set<NodeId>, a: GraphScene, b: GraphScene, s: StmtModel)
    requires
        wired(p, done, a),
        b.stmts == a.stmts.push(s),
        b.virtuals == a.virtuals,
        b.numbers == a.numbers,
        b.next == a.next,
        edge_ok(p, a, s),
    ensures
        wired(p, done, b),
        goes_on(p, a, b),
        b.stmts.contains(s),
{
    assert(b.stmts[a.stmts.len() as int] == s);
    lemma_edge_ok_on(p, a, b, s);
    lemma_boxes_kept(p, a, b);
    lemma_wired_on(p, done, a, b);
}

/// An edge from the box of a node that is no `If`.
proof fn lemma_plain_edge(p: &GraphPlan, sc: GraphScene, m: NodeId, s: StmtModel)
    requires
        numbers_apart(sc),
        sc.numbers.contains_key(m),
        !(p.f.g().kind(m) is If),
        s matches StmtModel::Edge { from, .. } && from == own_id(sc, m),
    ensures
        edge_ok(p, sc, s),
{
    assert forall|k: nat| sc.next <= k implies own_id(sc, m) != #[trigger] dec(k) by {
        law_ids_are_apart(sc.numbers[m] as nat, k);
    }
    assert forall|n: NodeId| #[trigger]
        sc.numbers.contains_key(n) && p.f.g().kind(n) is If implies own_id(sc, m) != own_id(
        sc,
        n,
    ) by {
        law_ids_are_apart(sc.numbers[m] as nat, sc.numbers[n] as nat);
    }
}

/// An edge from a box without a node.
proof fn lemma_box_edge(p: &GraphPlan, sc: GraphScene, k: nat, s: StmtModel)
    requires
        s matches StmtModel::Edge { from, .. } && from == virtual_id(k),
    ensures
        edge_ok(p, sc, s),
{
    assert forall|j: nat| virtual_id(k) != #[trigger] dec(j) by {
        law_ids_are_apart(k, j);
    }
}

/// A node gets its number.
proof fn lemma_with_number(p: &GraphPlan, done: Set<NodeId>, sc: GraphScene, n: NodeId)
    requires
        wired(p, done, sc),
        sc.next < u128::MAX,
    ensures
        ({
            let (t, id) = with_number(p, sc, n);
            &&& wired(p, done, t)
            &&& goes_on(p, sc, t)
            &&& t.next <= sc.next + 1
            &&& t.stmts == sc.stmts
            &&& t.virtuals == sc.virtuals
            &&& t.numbers.contains_key(n)
            &&& id == own_id(t, n)
        }),
{
    let (t, id) = with_number(p, sc, n);
    assert forall|a: NodeId, b: NodeId| #[trigger]
        t.numbers.contains_key(a) && #[trigger] t.numbers.contains_key(b) && t.numbers[a]
            == t.numbers[b] implies a == b by {
        assert(a == n || sc.numbers.contains_key(a));
        assert(b == n || sc.numbers.contains_key(b));
    }
    assert forall|a: NodeId| #[trigger] t.numbers.contains_key(a) implies t.numbers[a] < t.next by {
        assert(a == n || sc.numbers.contains_key(a));
    }
    lemma_boxes_kept(p, sc, t);
    lemma_wired_on(p, done, sc, t);
}

proof fn lemma_with_branch(
    p: &GraphPlan,
    done: Set<NodeId>,
    sc: GraphScene,
    v: ValueId,
    label: Seq<char>,
)
    requires
        wired(p, done, sc),
        sc.next < u128::MAX,
        label == branch_label(p.f.g().values[v.0 as int].index as int),
    ensures
        ({
            let (t, id) = with_branch(sc, v, label);
            &&& wired(p, done, t)
            &&& goes_on(p, sc, t)
            &&& t.next <= sc.next + 1
            &&& t.virtuals.contains_key(v)
            &&& t.numbers == sc.numbers
            &&& id == virtual_id(t.virtuals[v] as nat)
        }),
{
    let (t, id) = with_branch(sc, v, label);
    if !sc.virtuals.contains_key(v) {
        assert(t.virtuals[v] == sc.next as u128);
        assert(t.stmts[sc.stmts.len() as int] == branch_box(p, t, v));
        lemma_boxes_entered(p, sc, t, v);
        lemma_wired_on(p, done, sc, t);
    }
}

proof fn lemma_with_branches(p: &GraphPlan, done: Set<NodeId>, sc: GraphScene, n: NodeId, k: int)
    requires
        p.f.g().valid(),
        p.f.g().has_node(n),
        p.f.g().kind(n) is If,
        wired(p, done, sc),
        sc.numbers.contains_key(n),
        sc.next + 2 < u128::MAX,
        k <= branch_count(p, n),
    ensures
        ({
            let t = with_branches(p, sc, n, own_id(sc, n), k);
            &&& wired(p, done, t)
            &&& goes_on(p, sc, t)
            &&& t.numbers == sc.numbers
            &&& t.next <= sc.next + (if k < 0 {
                0
            } else {
                k
            })
            &&& forall|j: int| 0 <= j < k ==> #[trigger] linked(p, t, n, j)
        }),
    decreases k,
{
    if k > 0 {
        let g = p.f.g();
        let id = own_id(sc, n);
        lemma_with_branches(p, done, sc, n, k - 1);
        let u = with_branches(p, sc, n, id, k - 1);
        let v = g.outs(n)[k - 1];
        assert(g.nodes[n.0 as int].outputs[k - 1] == v && g.output_ok(n.0 as int, k - 1));
        lemma_with_branch(p, done, u, v, branch_label(k - 1));
        let (next, to) = with_branch(u, v, branch_label(k - 1));
        let t = with_branches(p, sc, n, id, k);
        let s = branch_link(p, next, n, k - 1);
        assert(t.stmts =~= next.stmts.push(s));
        assert(edge_ok(p, next, s)) by {
            assert forall|j: nat| next.next <= j implies id != #[trigger] dec(j) by {
                law_ids_are_apart(next.numbers[n] as nat, j);
            }
            assert forall|m: NodeId| #[trigger]
                next.numbers.contains_key(m) && g.kind(m) is If && id == own_id(
                    next,
                    m,
                ) implies leaves_by_box(p, next, m, to) by {
                law_ids_are_apart(next.numbers[n] as nat, next.numbers[m] as nat);
                assert(next.virtuals.contains_key(v));
            }
        }
        lemma_push(p, done, next, t, s);
        assert(linked(p, t, n, k - 1));
        lemma_goes_on(p, u, next, t);
        lemma_goes_on(p, sc, u, t);
        assert forall|j: int| 0 <= j < k implies #[trigger] linked(p, t, n, j) by {
            if j < k - 1 {
                assert(linked(p, u, n, j));
                lemma_linked_on(p, u, t, n, j);
            }
        }
    }
}

/// The box that an edge leaves from: that of the branch it is for, if any.
proof fn lemma_with_source(
    p: &GraphPlan,
    done: Set<NodeId>,
    sc: GraphScene,
    v: ValueId,
    edge: StmtModel,
)
    requires
        wired(p, done, sc),
        sc.next + 2 < u128::MAX,
        edge matches StmtModel::Edge { from, .. } && from == with_source(p, sc, v).1,
    ensures
        ({
            let (t, from) = with_source(p, sc, v);
            &&& wired(p, done, t)
            &&& goes_on(p, sc, t)
            &&& t.next <= sc.next + 2
            &&& is_branch(p, v) ==> t.virtuals.contains_key(v) && from == virtual_id(
                t.virtuals[v] as nat,
            )
            &&& edge_ok(p, t, edge)
        }),
{
    let g = p.f.g();
    let parent = g.producer(v);
    let index = g.values[v.0 as int].index;
    let (t, from) = with_source(p, sc, v);
    if sc.virtuals.contains_key(v) {
        lemma_box_edge(p, t, sc.virtuals[v] as nat, edge);
    } else if g.kind(parent) is Call && index >= 2 {
        let mid = GraphScene {
            stmts: sc.stmts.push(t.stmts[sc.stmts.len() as int]),
            virtuals: sc.virtuals.insert(v, sc.next as u128),
            next: sc.next + 1,
            ..sc
        };
        lemma_boxes_entered(p, sc, mid, v);
        lemma_wired_on(p, done, sc, mid);
        lemma_with_number(p, done, mid, parent);
        let numbered = with_number(p, mid, parent).0;
        assert(t.stmts =~= numbered.stmts.push(t.stmts.last()));
        lemma_plain_edge(p, numbered, parent, t.stmts.last());
        lemma_push(p, done, numbered, t, t.stmts.last());
        lemma_goes_on(p, mid, numbered, t);
        lemma_goes_on(p, sc, mid, t);
        lemma_box_edge(p, t, sc.next, edge);
    } else if g.kind(parent) is If {
        lemma_with_branch(p, done, sc, v, branch_label(index as int));
        lemma_box_edge(p, t, t.virtuals[v] as nat, edge);
    } else {
        lemma_with_number(p, done, sc, parent);
        lemma_plain_edge(p, t, parent, edge);
    }
}

proof fn lemma_with_edge(p: &GraphPlan, done: Set<NodeId>, sc: GraphScene, m: NodeId, idx: int)
    requires
        wired(p, done, sc),
        sc.numbers.contains_key(m),
        !constant_node(p, m),
        sc.next + 2 < u128::MAX,
    ensures
        ({
            let t = with_edge(p, sc, m, own_id(sc, m), idx);
            &&& wired(p, done, t)
            &&& goes_on(p, sc, t)
            &&& t.next <= sc.next + 2
            &&& fed(p, t, m, idx)
        }),
{
    let v = p.f.g().ins(m)[idx];
    let parent = p.f.g().producer(v);
    let id = own_id(sc, m);
    let t = with_edge(p, sc, m, id, idx);
    if !(address_edge(p, m, idx) || (!constant_node(p, parent) && !visible(p, parent))) {
        let (next, from) = with_source(p, sc, v);
        let edge = edge_stmt(
            from,
            id,
            edge_attrs(role_look(p.f.g().kind(m), idx).1, edge_label(p, m, idx)),
        );
        lemma_with_source(p, done, sc, v, edge);
        let mid = GraphScene { stmts: next.stmts.push(edge), ..next };
        lemma_push(p, done, next, mid, edge);
        lemma_goes_on(p, sc, next, mid);
        if is_branch(p, v) {
            assert(edge == branch_feed(p, mid, m, idx));
        }
        if constant_node(p, parent) {
            let copy = const_box(p, parent, from);
            assert(t.stmts =~= mid.stmts.push(copy));
            lemma_push(p, done, mid, t, copy);
            lemma_goes_on(p, sc, mid, t);
        } else {
            assert(t =~= mid);
        }
    }
}

proof fn lemma_with_edges(p: &GraphPlan, done: Set<NodeId>, sc: GraphScene, m: NodeId, k: int)
    requires
        wired(p, done, sc),
        sc.numbers.contains_key(m),
        !constant_node(p, m),
        0 <= k,
        sc.next + 2 * k < u128::MAX,
    ensures
        ({
            let t = with_edges(p, sc, m, own_id(sc, m), k);
            &&& wired(p, done, t)
            &&& goes_on(p, sc, t)
            &&& t.next <= sc.next + 2 * k
            &&& forall|j: int| 0 <= j < k ==> #[trigger] fed(p, t, m, j)
        }),
    decreases k,
{
    if k > 0 {
        let id = own_id(sc, m);
        lemma_with_edges(p, done, sc, m, k - 1);
        let u = with_edges(p, sc, m, id, k - 1);
        assert(own_id(u, m) == id);
        lemma_with_edge(p, done, u, m, k - 1);
        let t = with_edges(p, sc, m, id, k);
        lemma_goes_on(p, sc, u, t);
        assert forall|j: int| 0 <= j < k implies #[trigger] fed(p, t, m, j) by {
            if j < k - 1 {
                assert(fed(p, u, m, j));
                lemma_fed_on(p, u, t, m, j);
            }
        }
    }
}

proof fn lemma_with_node(p: &GraphPlan, done: Set<NodeId>, sc: GraphScene, n: NodeId)
    requires
        p.f.g().valid(),
        p.f.g().has_node(n),
        wired(p, done, sc),
        sc.next + 2 * p.f.g().ins(n).len() + 3 < u128::MAX,
    ensures
        ({
            let t = with_node(p, sc, n);
            &&& wired(p, done.insert(n), t)
            &&& t.next <= sc.next + 2 * p.f.g().ins(n).len() + 3
        }),
{
    let g = p.f.g();
    let t = with_node(p, sc, n);
    let more = done.insert(n);
    if declares(p, n) {
        lemma_with_number(p, done, sc, n);
        let (numbered, id) = with_number(p, sc, n);
        let boxed = with_box(p, sc, n).0;
        assert(boxed.stmts =~= numbered.stmts.push(boxed.stmts.last()));
        lemma_push(p, done, numbered, boxed, boxed.stmts.last());
        assert(own_id(boxed, n) == id);
        let branched = if g.kind(n) is If {
            with_branches(p, boxed, n, id, branch_count(p, n))
        } else {
            boxed
        };
        if g.kind(n) is If {
            lemma_with_branches(p, done, boxed, n, branch_count(p, n));
        }
        assert(own_id(branched, n) == id);
        lemma_with_edges(p, done, branched, n, g.ins(n).len() as int);
        assert(t.numbers.contains_key(n)) by {
            assert(branched.numbers.contains_key(n) && !constant_node(p, n));
        }
        assert forall|m: NodeId, k: int|
            #![trigger more.contains(m), g.outs(m)[k]]
            more.contains(m) && declares(p, m) && g.kind(m) is If && 0 <= k < branch_count(
                p,
                m,
            ) implies linked(p, t, m, k) by {
            if m == n {
                assert(linked(p, branched, n, k));
                lemma_linked_on(p, branched, t, n, k);
            } else {
                assert(done.contains(m));
            }
        }
        assert forall|m: NodeId, idx: int|
            #![trigger more.contains(m), g.ins(m)[idx]]
            more.contains(m) && declares(p, m) && 0 <= idx < g.ins(m).len() implies fed(
            p,
            t,
            m,
            idx,
        ) by {
            if m == n {
                assert(fed(p, t, n, idx));
            } else {
                assert(done.contains(m));
            }
        }
        assert forall|m: NodeId| #[trigger]
            more.contains(m) && declares(p, m) implies t.numbers.contains_key(m) by {
            if m != n {
                assert(done.contains(m));
            }
        }
    } else {
        assert forall|m: NodeId| #[trigger] more.contains(m) && declares(p, m) implies done.contains(
            m,
        ) by {}
    }
}

proof fn lemma_with_nodes(p: &GraphPlan, order: Seq<NodeId>, k: int)
    requires
        p.f.g().valid(),
        forall|i: int| 0 <= i < order.len() ==> p.f.g().has_node(#[trigger] order[i]),
        0 <= k <= order.len(),
        numbers_needed(p, order, k) + 3 < u128::MAX,
    ensures
        ({
            let t = with_nodes(p, blank(), order, k);
            &&& wired(p, order.take(k).to_set(), t)
            &&& t.next <= numbers_needed(p, order, k)
        }),
    decreases k,
{
    if k > 0 {
        lemma_with_nodes(p, order, k - 1);
        let u = with_nodes(p, blank(), order, k - 1);
        let n = order[k - 1];
        let done = order.take(k - 1).to_set();
        lemma_with_node(p, done, u, n);
        assert(order.take(k) =~= order.take(k - 1).push(n));
        assert(done.insert(n) =~= order.take(k).to_set()) by {
            assert forall|m: NodeId| done.insert(n).contains(m) <==> #[trigger] order.take(
                k,
            ).to_set().contains(m) by {
                crate::entity_set::lemma_push_member(order.take(k - 1), n, m);
            }
        }
    } else {
        assert(order.take(0) =~= Seq::empty());
        assert(wired(p, order.take(0).to_set(), blank()));
    }
}

/// Each branch of an `If` has one box; the `If` has an edge to it, labelled
/// `true` or `false`, every input in the drawing that reads the branch is fed
/// from the box, unless a label stands for that edge, and no edge leaves the
/// `If` but to the boxes of its branches.
pub proof fn law_graph_branches_feed_their_readers(d: &GraphDotDumper<'_>, n: NodeId, k: int)
    requires
        d.wf(),
        d.drawn().contains(n),
        d.function.g().kind(n) is If,
        0 <= k < branch_count(&d.plan(), n),
    ensures
        ({
            let p = d.plan();
            let g = d.function.g();
            let v = g.outs(n)[k];
            let sc = with_nodes(&p, blank(), d.drawn(), d.drawn().len() as int);
            &&& sc.numbers.contains_key(n)
            &&& sc.virtuals.contains_key(v)
            &&& forall|w: ValueId| #[trigger]
                sc.virtuals.contains_key(w) && sc.virtuals[w] == sc.virtuals[v] ==> w == v
            &&& sc.stmts.contains(branch_box(&p, sc, v))
            &&& sc.stmts.contains(branch_link(&p, sc, n, k))
            &&& forall|m: NodeId, idx: int|
                #![trigger d.drawn().contains(m), g.ins(m)[idx]]
                d.drawn().contains(m) && declares(&p, m) && 0 <= idx < g.ins(m).len() && g.ins(
                    m,
                )[idx] == v && !address_edge(&p, m, idx) ==> sc.numbers.contains_key(m)
                    && sc.stmts.contains(branch_feed(&p, sc, m, idx))
            &&& forall|i: int|
                0 <= i < sc.stmts.len() ==> ((#[trigger] sc.stmts[i]) matches StmtModel::Edge {
                    from,
                    to,
                    ..
                } ==> (from == own_id(sc, n) ==> leaves_by_box(&p, sc, n, to)))
        }),
{
    let p = d.plan();
    let g = d.function.g();
    let v = g.outs(n)[k];
    let order = d.drawn();
    let sc = with_nodes(&p, blank(), order, order.len() as int);
    let done = order.take(order.len() as int).to_set();
    law_drawn_nodes(d);
    lemma_drawn_fits(d, order.len() as int);
    lemma_with_nodes(&p, order, order.len() as int);
    assert(order.take(order.len() as int) =~= order);
    assert(done.contains(n) && declares(&p, n));
    assert(p.f.g().outs(n)[k] == v);
    assert(linked(&p, sc, n, k));
    let x = order.index_of(n);
    assert(g.has_node(order[x]));
    assert(g.nodes[n.0 as int].outputs[k] == v && g.output_ok(n.0 as int, k));
    assert forall|m: NodeId, idx: int|
        #![trigger order.contains(m), g.ins(m)[idx]]
        order.contains(m) && declares(&p, m) && 0 <= idx < g.ins(m).len() && g.ins(m)[idx] == v
            && !address_edge(&p, m, idx) implies sc.numbers.contains_key(m) && sc.stmts.contains(
        branch_feed(&p, sc, m, idx),
    ) by {
        assert(done.contains(m) && p.f.g().ins(m)[idx] == v);
        assert(fed(&p, sc, m, idx));
    }
    assert forall|i: int| 0 <= i < sc.stmts.len() implies ((
    #[trigger] sc.stmts[i]) matches StmtModel::Edge { from, to, .. } ==> (from == own_id(sc, n)
        ==> leaves_by_box(&p, sc, n, to))) by {
        assert(edge_ok(&p, sc, sc.stmts[i]));
    }
}

} // verus!
