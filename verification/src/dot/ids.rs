//! The ids of a drawing: each is declared once, and tells the node it stands
//! for.

use super::emitter::StmtModel;
use super::function_dot::{
    blank, branch_count, branch_label, const_box, copy_id, declares, in_view, names_node, per_use,
    virtual_id, with_box, with_branch, with_branches, with_edge, with_edges, with_id, with_node,
    with_nodes, with_source, FunctionDotDumper, Plan, Scene,
};
use super::joined::declared;
use crate::fmt::{dec, law_dec_identifies_number, lemma_dec_nonempty};
use crate::node::{NodeId, ValueId};
use vstd::prelude::*;

verus! {

// -- what an id says --------------------------------------------------------------
proof fn lemma_prefixes(k: nat)
    ensures
        virtual_id(k).len() > 0,
        virtual_id(k)[0] == 'v',
        virtual_id(k).skip(1) == dec(k),
        copy_id(k).len() > 0,
        copy_id(k)[0] == 'c',
        copy_id(k).skip(1) == dec(k),
        dec(k).len() > 0,
        dec(k)[0] != 'v',
        dec(k)[0] != 'c',
{
    reveal_strlit("v");
    reveal_strlit("c");
    lemma_dec_nonempty(k);
    assert(crate::fmt::is_decimal(dec(k)[0]));
    assert(virtual_id(k).skip(1) =~= dec(k));
    assert(copy_id(k).skip(1) =~= dec(k));
}

/// Numbers of nodes, of copies and of boxes without a node are never confused,
/// and each id tells its number.
pub proof fn law_ids_are_apart(a: nat, b: nat)
    ensures
        virtual_id(a) != copy_id(b),
        virtual_id(a) != dec(b),
        copy_id(a) != dec(b),
        virtual_id(a) == virtual_id(b) ==> a == b,
        copy_id(a) == copy_id(b) ==> a == b,
        dec(a) == dec(b) ==> a == b,
{
    lemma_prefixes(a);
    lemma_prefixes(b);
    if dec(a) == dec(b) {
        law_dec_identifies_number(a, b);
    }
}

/// The id that a node gets stands for it: its own number, each time the same,
/// or, for a copy of a constant, a new one each time. Ids handed out before
/// keep their nodes.
pub proof fn law_id_maps_back(p: &Plan, sc: Scene, n: NodeId)
    requires
        sc.next <= u128::MAX,
    ensures
        ({
            let (t, id) = with_id(p, sc, n);
            &&& names_node(t.drawn, t.copies, id, n)
            &&& !per_use(p, n) ==> id == dec(n.0 as nat) && t.next == sc.next
            &&& per_use(p, n) ==> id == copy_id(sc.next) && t.next == sc.next + 1
            &&& forall|x: Seq<char>, m: NodeId| #[trigger]
                names_node(sc.drawn, sc.copies, x, m) ==> names_node(t.drawn, t.copies, x, m)
        }),
{
    let (t, id) = with_id(p, sc, n);
    if per_use(p, n) {
        assert(t.copies[sc.copies.len() as int] == (sc.next as u128, n));
    }
    assert forall|x: Seq<char>, m: NodeId| #[trigger]
        names_node(sc.drawn, sc.copies, x, m) implies names_node(t.drawn, t.copies, x, m) by {
        if !(sc.drawn.contains(m) && x == dec(m.0 as nat)) {
            let i = choose|i: int|
                0 <= i < sc.copies.len() && (#[trigger] sc.copies[i]).1 == m && x == copy_id(
                    sc.copies[i].0 as nat,
                );
            assert(t.copies[i] == sc.copies[i]);
        }
    }
}

/// The id of a box without a node stands for none.
pub proof fn law_virtual_id_names_no_node(sc: Scene, k: nat, n: NodeId)
    ensures
        !names_node(sc.drawn, sc.copies, virtual_id(k), n),
{
    law_ids_are_apart(k, n.0 as nat);
    if exists|i: int|
        0 <= i < sc.copies.len() && (#[trigger] sc.copies[i]).1 == n && virtual_id(k) == copy_id(
            sc.copies[i].0 as nat,
        ) {
        let i = choose|i: int|
            0 <= i < sc.copies.len() && (#[trigger] sc.copies[i]).1 == n && virtual_id(k)
                == copy_id(sc.copies[i].0 as nat);
        law_ids_are_apart(k, sc.copies[i].0 as nat);
    }
}

/// No two copies share a number.
pub open spec fn copies_apart(sc: Scene) -> bool {
    forall|i: int, j: int|
        #![trigger sc.copies[i], sc.copies[j]]
        0 <= i < j < sc.copies.len() ==> sc.copies[i].0 != sc.copies[j].0
}

/// An id stands for one node at most.
pub proof fn law_id_names_one_node(sc: Scene, id: Seq<char>, a: NodeId, b: NodeId)
    requires
        copies_apart(sc),
        names_node(sc.drawn, sc.copies, id, a),
        names_node(sc.drawn, sc.copies, id, b),
    ensures
        a == b,
{
    let own_a = sc.drawn.contains(a) && id == dec(a.0 as nat);
    let own_b = sc.drawn.contains(b) && id == dec(b.0 as nat);
    if own_a && own_b {
        law_ids_are_apart(a.0 as nat, b.0 as nat);
    } else if own_a {
        let i = choose|i: int|
            0 <= i < sc.copies.len() && (#[trigger] sc.copies[i]).1 == b && id == copy_id(
                sc.copies[i].0 as nat,
            );
        law_ids_are_apart(sc.copies[i].0 as nat, a.0 as nat);
    } else if own_b {
        let i = choose|i: int|
            0 <= i < sc.copies.len() && (#[trigger] sc.copies[i]).1 == a && id == copy_id(
                sc.copies[i].0 as nat,
            );
        law_ids_are_apart(sc.copies[i].0 as nat, b.0 as nat);
    } else {
        let i = choose|i: int|
            0 <= i < sc.copies.len() && (#[trigger] sc.copies[i]).1 == a && id == copy_id(
                sc.copies[i].0 as nat,
            );
        let j = choose|j: int|
            0 <= j < sc.copies.len() && (#[trigger] sc.copies[j]).1 == b && id == copy_id(
                sc.copies[j].0 as nat,
            );
        law_ids_are_apart(sc.copies[i].0 as nat, sc.copies[j].0 as nat);
        if i < j {
            assert(sc.copies[i].0 != sc.copies[j].0);
        } else if j < i {
            assert(sc.copies[j].0 != sc.copies[i].0);
        }
    }
}

// -- ids are declared once --------------------------------------------------------
/// The box of a value without a node.
pub open spec fn is_virtual(sc: Scene, id: Seq<char>) -> bool {
    exists|v: ValueId| #[trigger]
        sc.virtuals.contains_key(v) && id == virtual_id(sc.virtuals[v] as nat)
}

/// The number of one of the nodes drawn so far.
spec fn is_own(sc: Scene, done: Set<NodeId>, id: Seq<char>) -> bool {
    exists|m: NodeId| #[trigger]
        done.contains(m) && sc.drawn.contains(m) && id == dec(m.0 as nat)
}

spec fn is_copy(sc: Scene, id: Seq<char>) -> bool {
    exists|i: int|
        0 <= i < sc.copies.len() && id == copy_id((#[trigger] sc.copies[i]).0 as nat)
}

spec fn sorted_out(sc: Scene, done: Set<NodeId>, id: Seq<char>) -> bool {
    is_virtual(sc, id) || is_own(sc, done, id) || is_copy(sc, id)
}

/// No two statements declare one id.
pub open spec fn declared_once(stmts: Seq<StmtModel>) -> bool {
    forall|i: int, j: int|
        #![trigger stmts[i], stmts[j]]
        0 <= i < j < stmts.len() ==> (stmts[i] matches StmtModel::Node { id: a, .. } ==> (
        stmts[j] matches StmtModel::Node { id: b, .. } ==> a != b))
}

/// What holds all along: numbers are apart and were handed out, boxes without
/// a node stand for outputs of branches and calls, and every declared id is
/// one of these, or of a node drawn so far.
spec fn tidy(p: &Plan, done: Set<NodeId>, sc: Scene) -> bool {
    &&& copies_apart(sc)
    &&& forall|i: int| 0 <= i < sc.copies.len() ==> (#[trigger] sc.copies[i]).0 < sc.next
    &&& forall|v: ValueId| #[trigger]
        sc.virtuals.contains_key(v) ==> sc.virtuals[v] < sc.next && branches(p, v)
    &&& forall|i: int|
        0 <= i < sc.stmts.len() ==> ((#[trigger] sc.stmts[i]) matches StmtModel::Node { id, .. }
            ==> sorted_out(sc, done, id))
    &&& declared_once(sc.stmts)
}

/// A value of a branch or a call.
spec fn branches(p: &Plan, v: ValueId) -> bool {
    p.f.g().kind(p.f.g().producer(v)) is If || p.f.g().kind(p.f.g().producer(v)) is Call
}

/// What later scenes keep.
spec fn grows(a: Scene, b: Scene) -> bool {
    &&& a.drawn.subset_of(b.drawn)
    &&& a.copies.len() <= b.copies.len()
    &&& forall|i: int| 0 <= i < a.copies.len() ==> #[trigger] b.copies[i] == a.copies[i]
    &&& forall|v: ValueId| #[trigger]
        a.virtuals.contains_key(v) ==> b.virtuals.contains_key(v) && b.virtuals[v] == a.virtuals[v]
}

proof fn lemma_grows(a: Scene, b: Scene, done: Set<NodeId>, id: Seq<char>)
    requires
        grows(a, b),
        sorted_out(a, done, id),
    ensures
        sorted_out(b, done, id),
{
    if is_virtual(a, id) {
        let v = choose|v: ValueId| #[trigger]
            a.virtuals.contains_key(v) && id == virtual_id(a.virtuals[v] as nat);
        assert(b.virtuals.contains_key(v));
    } else if is_own(a, done, id) {
        let m = choose|m: NodeId| #[trigger]
            done.contains(m) && a.drawn.contains(m) && id == dec(m.0 as nat);
        assert(done.contains(m));
    } else {
        let i = choose|i: int|
            0 <= i < a.copies.len() && id == copy_id((#[trigger] a.copies[i]).0 as nat);
        assert(b.copies[i] == a.copies[i]);
    }
}

/// The next number is not in use.
proof fn lemma_fresh(p: &Plan, done: Set<NodeId>, sc: Scene)
    requires
        tidy(p, done, sc),
    ensures
        !declared(sc.stmts, virtual_id(sc.next)),
        !declared(sc.stmts, copy_id(sc.next)),
{
    assert forall|id: Seq<char>| #[trigger] sorted_out(sc, done, id) implies id != virtual_id(
        sc.next,
    ) && id != copy_id(sc.next) by {
        if is_virtual(sc, id) {
            let v = choose|v: ValueId| #[trigger]
                sc.virtuals.contains_key(v) && id == virtual_id(sc.virtuals[v] as nat);
            law_ids_are_apart(sc.virtuals[v] as nat, sc.next);
        } else if is_own(sc, done, id) {
            let m = choose|m: NodeId| #[trigger]
                done.contains(m) && sc.drawn.contains(m) && id == dec(m.0 as nat);
            law_ids_are_apart(sc.next, m.0 as nat);
        } else {
            let i = choose|i: int|
                0 <= i < sc.copies.len() && id == copy_id((#[trigger] sc.copies[i]).0 as nat);
            law_ids_are_apart(sc.copies[i].0 as nat, sc.next);
            law_ids_are_apart(sc.next, sc.copies[i].0 as nat);
        }
    }
    assert forall|id: Seq<char>| #[trigger] declared(sc.stmts, id) implies sorted_out(
        sc,
        done,
        id,
    ) by {
        let i = choose|i: int|
            0 <= i < sc.stmts.len() && ((#[trigger] sc.stmts[i]) matches StmtModel::Node {
                id: x,
                ..
            } && x == id);
        assert(sorted_out(sc, done, id));
    }
}

/// The box of a node that was not drawn yet is not declared.
proof fn lemma_undrawn(p: &Plan, done: Set<NodeId>, sc: Scene, n: NodeId)
    requires
        tidy(p, done, sc),
        !done.contains(n),
    ensures
        !declared(sc.stmts, dec(n.0 as nat)),
{
    let own = dec(n.0 as nat);
    if declared(sc.stmts, own) {
        let i = choose|i: int|
            0 <= i < sc.stmts.len() && ((#[trigger] sc.stmts[i]) matches StmtModel::Node {
                id: x,
                ..
            } && x == own);
        assert(sorted_out(sc, done, own));
        if is_virtual(sc, own) {
            let v = choose|v: ValueId| #[trigger]
                sc.virtuals.contains_key(v) && own == virtual_id(sc.virtuals[v] as nat);
            law_ids_are_apart(sc.virtuals[v] as nat, n.0 as nat);
        } else if is_own(sc, done, own) {
            let m = choose|m: NodeId| #[trigger]
                done.contains(m) && sc.drawn.contains(m) && own == dec(m.0 as nat);
            law_ids_are_apart(n.0 as nat, m.0 as nat);
        } else {
            let k = choose|k: int|
                0 <= k < sc.copies.len() && own == copy_id((#[trigger] sc.copies[k]).0 as nat);
            law_ids_are_apart(sc.copies[k].0 as nat, n.0 as nat);
        }
    }
}

/// A statement is added; one that declares an id brings it in.
proof fn lemma_tidy_push(
    p: &Plan,
    done: Set<NodeId>,
    more: Set<NodeId>,
    a: Scene,
    b: Scene,
    s: StmtModel,
)
    requires
        tidy(p, done, a),
        grows(a, b),
        done.subset_of(more),
        b.stmts == a.stmts.push(s),
        a.next <= b.next,
        copies_apart(b),
        forall|i: int| 0 <= i < b.copies.len() ==> (#[trigger] b.copies[i]).0 < b.next,
        forall|v: ValueId| #[trigger]
            b.virtuals.contains_key(v) ==> b.virtuals[v] < b.next && branches(p, v),
        s matches StmtModel::Node { id, .. } ==> !declared(a.stmts, id) && sorted_out(b, more, id),
    ensures
        tidy(p, more, b),
{
    assert forall|i: int| 0 <= i < b.stmts.len() implies ((
    #[trigger] b.stmts[i]) matches StmtModel::Node { id, .. } ==> sorted_out(b, more, id)) by {
        if i < a.stmts.len() {
            assert(b.stmts[i] == a.stmts[i]);
            if let StmtModel::Node { id, .. } = a.stmts[i] {
                lemma_grows(a, b, done, id);
                if is_own(b, done, id) {
                    let m = choose|m: NodeId| #[trigger]
                        done.contains(m) && b.drawn.contains(m) && id == dec(m.0 as nat);
                    assert(more.contains(m));
                }
            }
        }
    }
    assert forall|i: int, j: int|
        #![trigger b.stmts[i], b.stmts[j]]
        0 <= i < j < b.stmts.len() implies (b.stmts[i] matches StmtModel::Node { id: x, .. } ==> (
    b.stmts[j] matches StmtModel::Node { id: y, .. } ==> x != y)) by {
        if j < a.stmts.len() {
            assert(b.stmts[i] == a.stmts[i] && b.stmts[j] == a.stmts[j]);
        } else if let StmtModel::Node { id: x, .. } = b.stmts[i] {
            assert(a.stmts[i] == b.stmts[i]);
            assert(declared(a.stmts, x));
        }
    }
}

/// Only the tables of a scene grow.
proof fn lemma_tidy_same(p: &Plan, done: Set<NodeId>, a: Scene, b: Scene)
    requires
        tidy(p, done, a),
        grows(a, b),
        b.stmts == a.stmts,
        a.next <= b.next,
        copies_apart(b),
        forall|i: int| 0 <= i < b.copies.len() ==> (#[trigger] b.copies[i]).0 < b.next,
        forall|v: ValueId| #[trigger]
            b.virtuals.contains_key(v) ==> b.virtuals[v] < b.next && branches(p, v),
    ensures
        tidy(p, done, b),
{
    assert forall|i: int| 0 <= i < b.stmts.len() implies ((
    #[trigger] b.stmts[i]) matches StmtModel::Node { id, .. } ==> sorted_out(b, done, id)) by {
        if let StmtModel::Node { id, .. } = b.stmts[i] {
            assert(a.stmts[i] == b.stmts[i]);
            lemma_grows(a, b, done, id);
        }
    }
}

proof fn lemma_with_id(p: &Plan, done: Set<NodeId>, sc: Scene, n: NodeId)
    requires
        tidy(p, done, sc),
        sc.next < u128::MAX,
    ensures
        ({
            let t = with_id(p, sc, n).0;
            &&& tidy(p, done, t)
            &&& grows(sc, t)
            &&& sc.next <= t.next <= sc.next + 1
            &&& t.stmts == sc.stmts
            &&& t.virtuals == sc.virtuals
        }),
{
    let t = with_id(p, sc, n).0;
    assert forall|i: int, j: int|
        #![trigger t.copies[i], t.copies[j]]
        0 <= i < j < t.copies.len() implies t.copies[i].0 != t.copies[j].0 by {
        assert(t.copies[i] == sc.copies[i]);
        if j < sc.copies.len() {
            assert(t.copies[j] == sc.copies[j]);
        }
    }
    assert forall|i: int| 0 <= i < t.copies.len() implies (#[trigger] t.copies[i]).0 < t.next by {
        if i < sc.copies.len() {
            assert(t.copies[i] == sc.copies[i]);
        }
    }
    lemma_tidy_same(p, done, sc, t);
}

/// A box for a value is declared and entered.
proof fn lemma_enter(p: &Plan, done: Set<NodeId>, sc: Scene, t: Scene, v: ValueId)
    requires
        tidy(p, done, sc),
        sc.next < u128::MAX,
        branches(p, v),
        t.stmts.len() == sc.stmts.len() + 1,
        t.stmts == sc.stmts.push(t.stmts.last()),
        t.stmts.last() matches StmtModel::Node { id, .. } && id == virtual_id(sc.next),
        t.virtuals == sc.virtuals.insert(v, sc.next as u128),
        !sc.virtuals.contains_key(v),
        t.next == sc.next + 1,
        t.copies == sc.copies,
        sc.drawn.subset_of(t.drawn),
    ensures
        tidy(p, done, t),
        grows(sc, t),
{
    lemma_fresh(p, done, sc);
    assert(t.virtuals.contains_key(v));
    assert(is_virtual(t, virtual_id(sc.next)));
    assert forall|w: ValueId| #[trigger] t.virtuals.contains_key(w) implies t.virtuals[w] < t.next
        && branches(p, w) by {
        if w != v {
            assert(sc.virtuals.contains_key(w));
        }
    }
    lemma_tidy_push(p, done, done, sc, t, t.stmts.last());
}

proof fn lemma_with_branch(p: &Plan, done: Set<NodeId>, sc: Scene, v: ValueId, label: Seq<char>)
    requires
        tidy(p, done, sc),
        sc.next < u128::MAX,
        branches(p, v),
    ensures
        ({
            let t = with_branch(sc, v, label).0;
            &&& tidy(p, done, t)
            &&& grows(sc, t)
            &&& sc.next <= t.next <= sc.next + 1
        }),
{
    let t = with_branch(sc, v, label).0;
    if !sc.virtuals.contains_key(v) {
        assert(t.stmts =~= sc.stmts.push(t.stmts.last()));
        lemma_enter(p, done, sc, t, v);
    }
}

proof fn lemma_grows_on(a: Scene, b: Scene, c: Scene)
    requires
        grows(a, b),
        grows(b, c),
    ensures
        grows(a, c),
{
    assert forall|i: int| 0 <= i < a.copies.len() implies #[trigger] c.copies[i] == a.copies[i] by {
        assert(b.copies[i] == a.copies[i]);
    }
    assert forall|v: ValueId| #[trigger] a.virtuals.contains_key(v) implies c.virtuals.contains_key(
        v,
    ) && c.virtuals[v] == a.virtuals[v] by {
        assert(b.virtuals.contains_key(v));
    }
}

proof fn lemma_with_branches(
    p: &Plan,
    done: Set<NodeId>,
    sc: Scene,
    n: NodeId,
    id: Seq<char>,
    k: int,
)
    requires
        p.f.g().valid(),
        p.f.g().has_node(n),
        p.f.g().kind(n) is If,
        tidy(p, done, sc),
        sc.next + 2 < u128::MAX,
        k <= 2,
        k <= p.f.g().outs(n).len(),
    ensures
        ({
            let t = with_branches(p, sc, n, id, k);
            &&& tidy(p, done, t)
            &&& grows(sc, t)
            &&& sc.next <= t.next
            &&& t.next <= sc.next + (if k < 0 {
                0
            } else {
                k
            })
        }),
    decreases k,
{
    if k > 0 {
        let g = p.f.g();
        lemma_with_branches(p, done, sc, n, id, k - 1);
        let u = with_branches(p, sc, n, id, k - 1);
        let v = g.outs(n)[k - 1];
        assert(g.nodes[n.0 as int].outputs[k - 1] == v && g.output_ok(n.0 as int, k - 1));
        lemma_with_branch(p, done, u, v, branch_label(k - 1));
        let next = with_branch(u, v, branch_label(k - 1)).0;
        let t = with_branches(p, sc, n, id, k);
        assert(t.stmts =~= next.stmts.push(t.stmts.last()));
        lemma_tidy_push(p, done, done, next, t, t.stmts.last());
        lemma_grows_on(sc, u, next);
        lemma_grows_on(sc, next, t);
    }
}

proof fn lemma_with_source(p: &Plan, done: Set<NodeId>, sc: Scene, v: ValueId)
    requires
        tidy(p, done, sc),
        sc.next + 2 < u128::MAX,
    ensures
        ({
            let (t, from) = with_source(p, sc, v);
            &&& tidy(p, done, t)
            &&& grows(sc, t)
            &&& sc.next <= t.next <= sc.next + 2
            &&& per_use(p, p.f.g().producer(v)) ==> !declared(t.stmts, from) && is_copy(t, from)
        }),
{
    let g = p.f.g();
    let parent = g.producer(v);
    let index = g.values[v.0 as int].index;
    let (t, from) = with_source(p, sc, v);
    if sc.virtuals.contains_key(v) {
        assert(branches(p, v));
    } else if g.kind(parent) is Call && index >= 2 {
        let mid = Scene { stmts: sc.stmts.push(t.stmts[sc.stmts.len() as int]), ..t };
        assert(t.stmts =~= mid.stmts.push(t.stmts.last()));
        assert(mid.stmts.last() == t.stmts[sc.stmts.len() as int]);
        lemma_enter(p, done, sc, mid, v);
        lemma_tidy_push(p, done, done, mid, t, t.stmts.last());
        lemma_grows_on(sc, mid, t);
    } else if g.kind(parent) is If {
        lemma_with_branch(p, done, sc, v, branch_label(index as int));
    } else {
        lemma_with_id(p, done, sc, parent);
        if per_use(p, parent) {
            lemma_fresh(p, done, sc);
            assert(t.copies[sc.copies.len() as int].0 == sc.next as u128);
        }
    }
}

proof fn lemma_with_edge(
    p: &Plan,
    done: Set<NodeId>,
    sc: Scene,
    n: NodeId,
    id: Seq<char>,
    idx: int,
)
    requires
        tidy(p, done, sc),
        sc.next + 2 < u128::MAX,
    ensures
        ({
            let t = with_edge(p, sc, n, id, idx);
            &&& tidy(p, done, t)
            &&& grows(sc, t)
            &&& sc.next <= t.next <= sc.next + 2
        }),
{
    let v = p.f.g().ins(n)[idx];
    let parent = p.f.g().producer(v);
    let t = with_edge(p, sc, n, id, idx);
    if in_view(p, parent) {
        lemma_with_source(p, done, sc, v);
        let (next, from) = with_source(p, sc, v);
        let edge = t.stmts[next.stmts.len() as int];
        let mid = Scene { stmts: next.stmts.push(edge), ..next };
        lemma_tidy_push(p, done, done, next, mid, edge);
        if per_use(p, parent) {
            let copy = const_box(p, parent, from);
            assert(t.stmts =~= mid.stmts.push(copy));
            assert(!declared(mid.stmts, from)) by {
                if declared(mid.stmts, from) {
                    let i = choose|i: int|
                        0 <= i < mid.stmts.len() && ((
                        #[trigger] mid.stmts[i]) matches StmtModel::Node { id: x, .. } && x
                            == from);
                    assert(next.stmts[i] == mid.stmts[i]);
                }
            }
            lemma_tidy_push(p, done, done, mid, t, copy);
        } else {
            assert(t =~= mid);
        }
        lemma_grows_on(sc, next, t);
    }
}

proof fn lemma_with_edges(
    p: &Plan,
    done: Set<NodeId>,
    sc: Scene,
    n: NodeId,
    id: Seq<char>,
    k: int,
)
    requires
        tidy(p, done, sc),
        0 <= k,
        sc.next + 2 * k < u128::MAX,
    ensures
        ({
            let t = with_edges(p, sc, n, id, k);
            &&& tidy(p, done, t)
            &&& grows(sc, t)
            &&& sc.next <= t.next <= sc.next + 2 * k
        }),
    decreases k,
{
    if k > 0 {
        lemma_with_edges(p, done, sc, n, id, k - 1);
        let u = with_edges(p, sc, n, id, k - 1);
        lemma_with_edge(p, done, u, n, id, k - 1);
        lemma_grows_on(sc, u, with_edges(p, sc, n, id, k));
    }
}

/// How many numbers the first `k` nodes of a list may take.
pub(crate) open spec fn numbers_taken(p: &Plan, order: Seq<NodeId>, k: int) -> nat
    decreases k,
{
    if k <= 0 {
        0
    } else {
        numbers_taken(p, order, k - 1) + 2 * p.f.g().ins(order[k - 1]).len() + 2
    }
}

proof fn lemma_with_node(p: &Plan, done: Set<NodeId>, sc: Scene, n: NodeId)
    requires
        p.f.g().valid(),
        p.f.g().has_node(n),
        tidy(p, done, sc),
        !done.contains(n),
        sc.next + 2 * p.f.g().ins(n).len() + 3 < u128::MAX,
    ensures
        ({
            let t = with_node(p, sc, n);
            &&& tidy(p, done.insert(n), t)
            &&& grows(sc, t)
            &&& sc.next <= t.next <= sc.next + 2 * p.f.g().ins(n).len() + 2
        }),
{
    let more = done.insert(n);
    let t = with_node(p, sc, n);
    if !declares(p, n) {
        assert(tidy(p, more, sc)) by {
            assert forall|i: int| 0 <= i < sc.stmts.len() implies ((
            #[trigger] sc.stmts[i]) matches StmtModel::Node { id, .. } ==> sorted_out(
                sc,
                more,
                id,
            )) by {
                if let StmtModel::Node { id, .. } = sc.stmts[i] {
                    if is_own(sc, done, id) {
                        let m = choose|m: NodeId| #[trigger]
                            done.contains(m) && sc.drawn.contains(m) && id == dec(m.0 as nat);
                        assert(more.contains(m));
                    }
                }
            }
        }
    } else {
        let id = dec(n.0 as nat);
        let boxed = with_box(p, sc, n);
        lemma_undrawn(p, done, sc, n);
        assert(boxed.stmts =~= sc.stmts.push(boxed.stmts.last()));
        assert(more.contains(n) && boxed.drawn.contains(n));
        lemma_tidy_push(p, done, more, sc, boxed, boxed.stmts.last());
        let branched = if p.f.g().kind(n) is If {
            with_branches(p, boxed, n, id, branch_count(p, n))
        } else {
            boxed
        };
        if p.f.g().kind(n) is If {
            lemma_with_branches(p, more, boxed, n, id, branch_count(p, n));
        }
        lemma_with_edges(p, more, branched, n, id, p.f.g().ins(n).len() as int);
        lemma_grows_on(sc, boxed, branched);
        lemma_grows_on(sc, branched, t);
    }
}

/// The first `k` nodes of a list.
spec fn first_nodes(order: Seq<NodeId>, k: int) -> Set<NodeId> {
    Set::new(|m: NodeId| exists|j: int| 0 <= j < k && #[trigger] order[j] == m)
}

proof fn lemma_with_nodes(p: &Plan, order: Seq<NodeId>, k: int)
    requires
        p.f.g().valid(),
        order.no_duplicates(),
        forall|i: int| 0 <= i < order.len() ==> p.f.g().has_node(#[trigger] order[i]),
        0 <= k <= order.len(),
        numbers_taken(p, order, k) + 1 < u128::MAX,
    ensures
        ({
            let t = with_nodes(p, blank(), order, k);
            &&& tidy(p, first_nodes(order, k), t)
            &&& t.next <= numbers_taken(p, order, k)
        }),
    decreases k,
{
    if k > 0 {
        lemma_with_nodes(p, order, k - 1);
        let u = with_nodes(p, blank(), order, k - 1);
        let done = first_nodes(order, k - 1);
        let n = order[k - 1];
        assert(!done.contains(n)) by {
            if done.contains(n) {
                let j = choose|j: int| 0 <= j < k - 1 && #[trigger] order[j] == n;
                assert(order[j] == order[k - 1]);
            }
        }
        lemma_with_node(p, done, u, n);
        assert(done.insert(n) =~= first_nodes(order, k)) by {
            assert forall|m: NodeId| done.insert(n).contains(m) <==> #[trigger] first_nodes(
                order,
                k,
            ).contains(m) by {
                if first_nodes(order, k).contains(m) {
                    let j = choose|j: int| 0 <= j < k && #[trigger] order[j] == m;
                    assert(order[j] == m);
                }
                if done.contains(m) {
                    let j = choose|j: int| 0 <= j < k - 1 && #[trigger] order[j] == m;
                    assert(order[j] == m);
                }
                if m == n {
                    assert(order[k - 1] == m);
                }
            }
        }
    }
}

pub(crate) proof fn lemma_numbers_taken(p: &Plan, order: Seq<NodeId>, k: int)
    requires
        p.f.g().valid(),
        order.no_duplicates(),
        forall|i: int| 0 <= i < order.len() ==> p.f.g().has_node(#[trigger] order[i]),
        0 <= k <= order.len(),
    ensures
        numbers_taken(p, order, k) <= k * 0x2_0000_0000,
        numbers_taken(p, order, k) + 3 < u128::MAX,
    decreases k,
{
    crate::entity_set::lemma_distinct_bounded(order, p.f.g().nodes.len());
    if k > 0 {
        lemma_numbers_taken(p, order, k - 1);
        assert(p.f.g().has_node(order[k - 1]));
        let n = order[k - 1].0 as int;
        assert(p.f.g().nodes[n].inputs.len() <= p.f.g().uses.len());
        assert(k * 0x2_0000_0000 == (k - 1) * 0x2_0000_0000 + 0x2_0000_0000) by (nonlinear_arith);
    }
    assert(k * 0x2_0000_0000 <= 0x1_0000_0000 * 0x2_0000_0000) by (nonlinear_arith)
        requires
            k <= 0x1_0000_0000,
    ;
}

/// No id of a drawing is declared twice.
pub proof fn law_no_id_is_declared_twice(d: &FunctionDotDumper<'_>, order: Seq<NodeId>)
    requires
        d.wf(),
        d.draws(order),
    ensures
        declared_once(with_nodes(&d.plan(), blank(), order, order.len() as int).stmts),
{
    d.function.lemma_wf();
    lemma_numbers_taken(&d.plan(), order, order.len() as int);
    lemma_with_nodes(&d.plan(), order, order.len() as int);
}

/// Every id that a drawing declares stands for one node, or for a box without
/// a node and then for none.
pub proof fn law_declared_ids_map_back(
    d: &FunctionDotDumper<'_>,
    order: Seq<NodeId>,
    id: Seq<char>,
)
    requires
        d.wf(),
        d.draws(order),
        declared(with_nodes(&d.plan(), blank(), order, order.len() as int).stmts, id),
    ensures
        ({
            let sc = with_nodes(&d.plan(), blank(), order, order.len() as int);
            &&& copies_apart(sc)
            &&& is_virtual(sc, id) <==> forall|n: NodeId| !
                #[trigger] names_node(sc.drawn, sc.copies, id, n)
        }),
{
    d.function.lemma_wf();
    lemma_numbers_taken(&d.plan(), order, order.len() as int);
    lemma_with_nodes(&d.plan(), order, order.len() as int);
    let sc = with_nodes(&d.plan(), blank(), order, order.len() as int);
    let done = first_nodes(order, order.len() as int);
    let i = choose|i: int|
        0 <= i < sc.stmts.len() && ((#[trigger] sc.stmts[i]) matches StmtModel::Node { id: x, .. }
            && x == id);
    assert(sorted_out(sc, done, id));
    if is_virtual(sc, id) {
        let v = choose|v: ValueId| #[trigger]
            sc.virtuals.contains_key(v) && id == virtual_id(sc.virtuals[v] as nat);
        assert forall|n: NodeId| !#[trigger] names_node(sc.drawn, sc.copies, id, n) by {
            law_virtual_id_names_no_node(sc, sc.virtuals[v] as nat, n);
        }
    } else if is_own(sc, done, id) {
        let m = choose|m: NodeId| #[trigger]
            done.contains(m) && sc.drawn.contains(m) && id == dec(m.0 as nat);
        assert(names_node(sc.drawn, sc.copies, id, m));
    } else {
        let k = choose|k: int|
            0 <= k < sc.copies.len() && id == copy_id((#[trigger] sc.copies[k]).0 as nat);
        assert(names_node(sc.drawn, sc.copies, id, sc.copies[k].1));
    }
}

} // verus!
