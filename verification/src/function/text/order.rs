//! The order in which nodes print.
//!
//! Control nodes print in reverse postorder of the control graph. Each is
//! preceded by its unprinted data inputs, and the inputs a phi takes over an
//! edge print after the node the edge leaves. The order is what a small
//! scheduler settles on; one step of it is [`step`].

use crate::entity_set::lemma_push_member;
use crate::function::func::Function;
use crate::graph::model::GraphModel;
use crate::graph::walk::{
    controls, lemma_controls_node, lemma_feeds_node, reachable, steps_to,
};
use crate::node::{NodeId, NodeKind, ValueKind};
use vstd::prelude::*;

verus! {

/// Whether a kind merges values.
pub open spec fn phi_kind(kind: NodeKind) -> bool {
    kind is Phi || kind is MemPhi
}

/// Whether a kind merges values.
pub fn is_phi(kind: &NodeKind) -> (r: bool)
    ensures
        r == phi_kind(*kind),
{
    matches!(*kind, NodeKind::Phi | NodeKind::MemPhi)
}

/// The region that the token of a phi comes from.
pub open spec fn region_of(g: GraphModel, phi: NodeId) -> Option<NodeId> {
    if g.ins(phi).len() > 0 && g.kind(g.producer(g.ins(phi)[0])) is Region {
        Some(g.producer(g.ins(phi)[0]))
    } else {
        None
    }
}

/// The region that the token of a phi comes from.
pub fn phi_region(f: &Function, phi: NodeId) -> (r: Option<NodeId>)
    requires
        f.wf(),
        f.g().has_node(phi),
    ensures
        r == region_of(f.g(), phi),
        r matches Some(n) ==> f.g().has_node(n),
{
    match f.nth_input(phi, 0) {
        None => None,
        Some(token) => {
            let region = f.producer(token);
            if matches!(*f.node_kind(region), NodeKind::Region) {
                Some(region)
            } else {
                None
            }
        },
    }
}

/// The nodes of the positions in `ps`.
pub open spec fn nodes_of(ps: Seq<(NodeId, u32)>) -> Seq<NodeId> {
    Seq::new(ps.len(), |i: int| ps[i].0)
}

/// The readers of the control outputs among the first `k` outputs, in order.
pub open spec fn cfg_succs_upto(g: GraphModel, n: NodeId, k: int) -> Seq<NodeId>
    decreases k,
{
    if k <= 0 {
        Seq::empty()
    } else {
        let rest = cfg_succs_upto(g, n, k - 1);
        if g.value_kind(g.outs(n)[k - 1]) == ValueKind::Control {
            rest + nodes_of(g.reader_positions(g.outs(n)[k - 1]))
        } else {
            rest
        }
    }
}

/// The control successors of a node, in output order.
pub open spec fn cfg_succs(g: GraphModel, n: NodeId) -> Seq<NodeId> {
    cfg_succs_upto(g, n, g.outs(n).len() as int)
}

pub(crate) proof fn lemma_cfg_succs_upto(g: GraphModel, n: NodeId, k: int, m: NodeId)
    requires
        0 <= k <= g.outs(n).len(),
    ensures
        cfg_succs_upto(g, n, k).contains(m) <==> exists|i: int, j: int|
            #![trigger g.reader_positions(g.outs(n)[i])[j]]
            0 <= i < k && g.value_kind(g.outs(n)[i]) == ValueKind::Control && 0 <= j
                < g.reader_positions(g.outs(n)[i]).len() && g.reader_positions(g.outs(n)[i])[j].0
                == m,
    decreases k,
{
    if k > 0 {
        lemma_cfg_succs_upto(g, n, k - 1, m);
        let rest = cfg_succs_upto(g, n, k - 1);
        let ps = g.reader_positions(g.outs(n)[k - 1]);
        let all = cfg_succs_upto(g, n, k);
        if all.contains(m) {
            let x = all.index_of(m);
            if x < rest.len() {
                assert(rest[x] == m);
                assert(rest.contains(m));
                let (i, j) = choose|i: int, j: int|
                    #![trigger g.reader_positions(g.outs(n)[i])[j]]
                    0 <= i < k - 1 && g.value_kind(g.outs(n)[i]) == ValueKind::Control && 0 <= j
                        < g.reader_positions(g.outs(n)[i]).len() && g.reader_positions(
                        g.outs(n)[i],
                    )[j].0 == m;
                assert(g.reader_positions(g.outs(n)[i])[j].0 == m);
            } else {
                let j = x - rest.len();
                assert(g.reader_positions(g.outs(n)[k - 1])[j].0 == m);
            }
        }
        if exists|i: int, j: int|
            #![trigger g.reader_positions(g.outs(n)[i])[j]]
            0 <= i < k && g.value_kind(g.outs(n)[i]) == ValueKind::Control && 0 <= j
                < g.reader_positions(g.outs(n)[i]).len() && g.reader_positions(g.outs(n)[i])[j].0
                == m {
            let (i, j) = choose|i: int, j: int|
                #![trigger g.reader_positions(g.outs(n)[i])[j]]
                0 <= i < k && g.value_kind(g.outs(n)[i]) == ValueKind::Control && 0 <= j
                    < g.reader_positions(g.outs(n)[i]).len() && g.reader_positions(
                    g.outs(n)[i],
                )[j].0 == m;
            if i < k - 1 {
                assert(g.reader_positions(g.outs(n)[i])[j].0 == m);
                assert(rest.contains(m));
                let x = rest.index_of(m);
                assert(all[x] == m);
            } else {
                assert(all[rest.len() + j] == m);
            }
        }
    }
}

/// Control successors are what the walk follows forward.
pub proof fn lemma_cfg_succs(g: GraphModel, n: NodeId, m: NodeId)
    ensures
        cfg_succs(g, n).contains(m) <==> controls(g, n, m),
{
    lemma_cfg_succs_upto(g, n, g.outs(n).len() as int, m);
}

/// The control successors of a node, in output order.
pub fn cfg_succs_of(f: &Function, node: NodeId) -> (r: Vec<NodeId>)
    requires
        f.wf(),
        f.g().has_node(node),
    ensures
        r@ == cfg_succs(f.g(), node),
        forall|i: int| 0 <= i < r@.len() ==> f.g().has_node(#[trigger] r@[i]),
{
    let ghost g = f.g();
    proof {
        f.lemma_wf();
    }
    let outs = f.node_outputs(node);
    let mut r: Vec<NodeId> = Vec::new();
    let mut i: usize = 0;
    while i < outs.len()
        invariant
            f.wf(),
            f.gr().wf(),
            g == f.g(),
            outs@ == g.outs(node),
            forall|k: int| 0 <= k < outs@.len() ==> g.has_value(#[trigger] outs@[k]),
            i <= outs.len(),
            r@ == cfg_succs_upto(g, node, i as int),
            forall|k: int| 0 <= k < r@.len() ==> g.has_node(#[trigger] r@[k]),
        decreases outs.len() - i,
    {
        if f.value_kind(outs[i]) == ValueKind::Control {
            let users = f.graph().value_uses(outs[i]);
            let ghost before = r@;
            let ghost ns = nodes_of(users@);
            let mut j: usize = 0;
            while j < users.len()
                invariant
                    j <= users.len(),
                    ns == nodes_of(users@),
                    forall|k: int| 0 <= k < users@.len() ==> g.has_node((#[trigger] users@[k]).0),
                    r@ == before + ns.take(j as int),
                    forall|k: int| 0 <= k < r@.len() ==> g.has_node(#[trigger] r@[k]),
                decreases users.len() - j,
            {
                r.push(users[j].0);
                j += 1;
                assert(r@ =~= before + ns.take(j as int));
            }
            assert(ns.take(j as int) =~= ns);
        }
        i += 1;
    }
    r
}

// -- reverse postorder of the control graph ----------------------------------------

/// A depth-first search over control successors, the last output first.
#[verifier::ext_equal]
pub struct Search {
    pub seen: Seq<NodeId>,
    pub post: Seq<NodeId>,
    pub stack: Seq<(NodeId, nat)>,
}

/// One step of the search: look at the next successor of the node on top, or
/// be done with it.
pub open spec fn search_step(g: GraphModel, s: Search) -> Search {
    if s.stack.len() == 0 {
        s
    } else {
        let (node, idx) = s.stack.last();
        let succs = cfg_succs(g, node);
        if idx < succs.len() {
            let succ = succs[succs.len() - 1 - idx];
            let moved = s.stack.drop_last().push((node, idx + 1));
            if s.seen.contains(succ) {
                Search { stack: moved, ..s }
            } else {
                Search { seen: s.seen.push(succ), stack: moved.push((succ, 0)), ..s }
            }
        } else {
            Search { post: s.post.push(node), stack: s.stack.drop_last(), ..s }
        }
    }
}

pub open spec fn search_start(entry: NodeId) -> Search {
    Search { seen: seq![entry], post: Seq::empty(), stack: seq![(entry, 0nat)] }
}

/// The search after `n` steps.
pub open spec fn search_after(g: GraphModel, entry: NodeId, n: nat) -> Search
    decreases n,
{
    if n == 0 {
        search_start(entry)
    } else {
        search_step(g, search_after(g, entry, (n - 1) as nat))
    }
}

/// The control nodes in reverse postorder.
pub open spec fn cfg_rpo(g: GraphModel, entry: NodeId) -> Seq<NodeId> {
    let end = choose|n: nat| (#[trigger] search_after(g, entry, n)).stack.len() == 0;
    search_after(g, entry, end).post.reverse()
}

pub(crate) proof fn lemma_search_settles(g: GraphModel, entry: NodeId, a: nat, b: nat)
    requires
        a <= b,
        search_after(g, entry, a).stack.len() == 0,
    ensures
        search_after(g, entry, b) == search_after(g, entry, a),
    decreases b - a,
{
    if a < b {
        lemma_search_settles(g, entry, a, (b - 1) as nat);
    }
}

/// There is one reverse postorder.
pub proof fn lemma_cfg_rpo_unique(g: GraphModel, entry: NodeId, n: nat)
    requires
        search_after(g, entry, n).stack.len() == 0,
    ensures
        cfg_rpo(g, entry) == search_after(g, entry, n).post.reverse(),
{
    let m = choose|m: nat| (#[trigger] search_after(g, entry, m)).stack.len() == 0;
    if m <= n {
        lemma_search_settles(g, entry, m, n);
    } else {
        lemma_search_settles(g, entry, n, m);
    }
}

/// What holds of the search all along.
pub open spec fn search_inv(g: GraphModel, entry: NodeId, s: Search) -> bool {
    &&& s.seen.no_duplicates()
    &&& s.seen.len() > 0
    &&& s.seen[0] == entry
    &&& forall|i: int|
        0 <= i < s.seen.len() ==> g.has_node(#[trigger] s.seen[i]) && reachable(
            g,
            entry,
            s.seen[i],
        )
    &&& forall|i: int| 0 <= i < s.stack.len() ==> s.seen.contains((#[trigger] s.stack[i]).0)
    &&& forall|i: int| 0 <= i < s.post.len() ==> s.seen.contains(#[trigger] s.post[i])
    &&& s.post.no_duplicates()
    &&& forall|i: int, j: int|
        #![trigger s.post[i], s.stack[j]]
        0 <= i < s.post.len() && 0 <= j < s.stack.len() ==> s.post[i] != s.stack[j].0
    &&& forall|i: int, j: int|
        #![trigger s.stack[i], s.stack[j]]
        0 <= i < j < s.stack.len() ==> s.stack[i].0 != s.stack[j].0
    &&& forall|n: NodeId|
        #[trigger] s.seen.contains(n) ==> s.post.contains(n) || exists|j: int|
            0 <= j < s.stack.len() && (#[trigger] s.stack[j]).0 == n
}

pub(crate) proof fn lemma_search_step_inv(g: GraphModel, entry: NodeId, s: Search)
    requires
        g.valid(),
        search_inv(g, entry, s),
    ensures
        search_inv(g, entry, search_step(g, s)),
{
    if s.stack.len() > 0 {
        let t = search_step(g, s);
        let top = s.stack.len() - 1;
        let (node, idx) = s.stack.last();
        assert(s.stack[top] == (node, idx));
        let succs = cfg_succs(g, node);
        if idx < succs.len() {
            let succ = succs[succs.len() - 1 - idx];
            let moved = s.stack.drop_last().push((node, idx + 1));
            assert forall|j: int| 0 <= j < moved.len() implies (#[trigger] moved[j]).0
                == s.stack[j].0 by {}
            assert(succs.contains(succ));
            lemma_cfg_succs(g, node, succ);
            assert(s.seen.contains(s.stack[top].0));
            let x = s.seen.index_of(node);
            assert(reachable(g, entry, s.seen[x]));
            assert(steps_to(g, node, succ));
            crate::graph::walk::lemma_reachable_step(g, entry, node, succ);
            lemma_controls_node(g, node, succ);
            if s.seen.contains(succ) {
                assert forall|i: int| 0 <= i < t.stack.len() implies t.seen.contains(
                    (#[trigger] t.stack[i]).0,
                ) by {
                    assert(s.seen.contains(s.stack[i].0));
                }
                assert forall|n: NodeId| #[trigger] t.seen.contains(n) implies t.post.contains(n)
                    || exists|j: int| 0 <= j < t.stack.len() && (#[trigger] t.stack[j]).0 == n by {
                    if !s.post.contains(n) {
                        let j = choose|j: int|
                            0 <= j < s.stack.len() && (#[trigger] s.stack[j]).0 == n;
                        assert(t.stack[j].0 == n);
                    }
                }
                assert forall|i: int, j: int|
                    #![trigger t.post[i], t.stack[j]]
                    0 <= i < t.post.len() && 0 <= j < t.stack.len() implies t.post[i]
                    != t.stack[j].0 by {
                    assert(s.post[i] != s.stack[j].0);
                }
                assert forall|i: int, j: int|
                    #![trigger t.stack[i], t.stack[j]]
                    0 <= i < j < t.stack.len() implies t.stack[i].0 != t.stack[j].0 by {
                    assert(s.stack[i].0 != s.stack[j].0);
                }
            } else {
                assert forall|i: int, j: int| 0 <= i < j < t.seen.len() implies t.seen[i]
                    != t.seen[j] by {
                    if j == s.seen.len() {
                        assert(s.seen.contains(s.seen[i]));
                    }
                }
                assert forall|i: int| 0 <= i < t.stack.len() implies t.seen.contains(
                    (#[trigger] t.stack[i]).0,
                ) by {
                    lemma_push_member(s.seen, succ, t.stack[i].0);
                    if i < s.stack.len() {
                        assert(s.seen.contains(s.stack[i].0));
                    }
                }
                assert forall|i: int| 0 <= i < t.post.len() implies t.seen.contains(
                    #[trigger] t.post[i],
                ) by {
                    lemma_push_member(s.seen, succ, t.post[i]);
                }
                assert forall|n: NodeId| #[trigger] t.seen.contains(n) implies t.post.contains(n)
                    || exists|j: int| 0 <= j < t.stack.len() && (#[trigger] t.stack[j]).0 == n by {
                    lemma_push_member(s.seen, succ, n);
                    if n == succ {
                        assert(t.stack[s.stack.len() as int].0 == n);
                    } else if !s.post.contains(n) {
                        let j = choose|j: int|
                            0 <= j < s.stack.len() && (#[trigger] s.stack[j]).0 == n;
                        assert(t.stack[j].0 == n);
                    }
                }
                assert forall|i: int, j: int|
                    #![trigger t.post[i], t.stack[j]]
                    0 <= i < t.post.len() && 0 <= j < t.stack.len() implies t.post[i]
                    != t.stack[j].0 by {
                    if j < s.stack.len() {
                        assert(s.post[i] != s.stack[j].0);
                    } else {
                        assert(s.seen.contains(s.post[i]));
                    }
                }
                assert forall|i: int, j: int|
                    #![trigger t.stack[i], t.stack[j]]
                    0 <= i < j < t.stack.len() implies t.stack[i].0 != t.stack[j].0 by {
                    if j < s.stack.len() {
                        assert(s.stack[i].0 != s.stack[j].0);
                    } else {
                        assert(s.seen.contains(s.stack[i].0));
                    }
                }
            }
        } else {
            assert forall|i: int| 0 <= i < t.post.len() implies t.seen.contains(
                #[trigger] t.post[i],
            ) by {
                assert(s.seen.contains(s.stack[top].0));
                if i < s.post.len() {
                    assert(s.seen.contains(s.post[i]));
                }
            }
            assert forall|i: int, j: int| 0 <= i < j < t.post.len() implies t.post[i]
                != t.post[j] by {
                if j == s.post.len() {
                    assert(s.post[i] != s.stack[top].0);
                }
            }
            assert forall|i: int, j: int|
                #![trigger t.post[i], t.stack[j]]
                0 <= i < t.post.len() && 0 <= j < t.stack.len() implies t.post[i] != t.stack[j].0 by {
                assert(t.stack[j] == s.stack[j]);
                if i < s.post.len() {
                    assert(s.post[i] != s.stack[j].0);
                } else {
                    assert(s.stack[j].0 != s.stack[top].0);
                }
            }
            assert forall|n: NodeId| #[trigger] t.seen.contains(n) implies t.post.contains(n)
                || exists|j: int| 0 <= j < t.stack.len() && (#[trigger] t.stack[j]).0 == n by {
                lemma_push_member(s.post, node, n);
                if !s.post.contains(n) {
                    let j = choose|j: int|
                        0 <= j < s.stack.len() && (#[trigger] s.stack[j]).0 == n;
                    if j < top {
                        assert(t.stack[j].0 == n);
                    }
                }
            }
        }
    }
}

/// What is left to look at.
pub open spec fn search_left(g: GraphModel, stack: Seq<(NodeId, nat)>) -> nat
    decreases stack.len(),
{
    if stack.len() == 0 {
        0
    } else {
        let (node, idx) = stack.last();
        let succs = cfg_succs(g, node);
        search_left(g, stack.drop_last()) + 1 + (if idx < succs.len() {
            (succs.len() - idx) as nat
        } else {
            0
        })
    }
}

/// A frame of the search and its three parts.
spec fn frame_ok(
    g: GraphModel,
    frame: (NodeId, nat),
    node: NodeId,
    succs: Seq<NodeId>,
    place: usize,
) -> bool {
    frame.0 == node && frame.1 == place && succs == cfg_succs(g, node) && place <= succs.len()
}

spec fn lined_up(
    g: GraphModel,
    stack: Seq<(NodeId, nat)>,
    nodes: Seq<NodeId>,
    succs: Seq<Vec<NodeId>>,
    places: Seq<usize>,
) -> bool {
    forall|i: int|
        0 <= i < stack.len() ==> frame_ok(g, #[trigger] stack[i], nodes[i], succs[i]@, places[i])
}

/// The control nodes in reverse postorder.
pub fn cfg_reverse_postorder(f: &Function) -> (r: Vec<NodeId>)
    requires
        f.wf(),
    ensures
        r@ == cfg_rpo(f.g(), f.entry_node()),
        exists|n: nat| (#[trigger] search_after(f.g(), f.entry_node(), n)).stack.len() == 0,
        r@.no_duplicates(),
        r@.contains(f.entry_node()),
        forall|i: int|
            0 <= i < r@.len() ==> f.g().has_node(#[trigger] r@[i]) && reachable(
                f.g(),
                f.entry_node(),
                r@[i],
            ),
{
    let ghost g = f.g();
    let entry = f.entry();
    proof {
        f.lemma_wf();
        crate::graph::walk::lemma_reachable_self(g, entry);
    }
    let mut seen = crate::entity_set::NodeIdSet::new();
    seen.insert(entry);
    let mut post: Vec<NodeId> = Vec::new();
    let mut nodes: Vec<NodeId> = Vec::new();
    let mut succs: Vec<Vec<NodeId>> = Vec::new();
    let mut places: Vec<usize> = Vec::new();
    nodes.push(entry);
    succs.push(cfg_succs_of(f, entry));
    places.push(0);
    let ghost mut s = search_start(entry);
    let ghost mut n: nat = 0;
    proof {
        assert(s.seen[0] == entry);
        assert(s.stack[0].0 == entry);
        assert forall|m: NodeId| #[trigger] s.seen.contains(m) implies exists|j: int|
            0 <= j < s.stack.len() && (#[trigger] s.stack[j]).0 == m by {
            assert(s.stack[0].0 == m);
        }
        assert forall|m: NodeId| #[trigger] seen@.contains(m) <==> s.seen.contains(m) by {
            if m == entry {
                assert(s.seen[0] == m);
            }
        }
        assert(search_inv(g, entry, s));
    }
    while nodes.len() > 0
        invariant
            f.wf(),
            g == f.g(),
            g.valid(),
            entry == f.entry_node(),
            s == search_after(g, entry, n),
            search_inv(g, entry, s),
            forall|m: NodeId| #[trigger] seen@.contains(m) <==> s.seen.contains(m),
            post@ == s.post,
            nodes@.len() == s.stack.len(),
            succs@.len() == s.stack.len(),
            places@.len() == s.stack.len(),
            lined_up(g, s.stack, nodes@, succs@, places@),
        decreases g.nodes.len() - s.seen.len(), search_left(g, s.stack),
    {
        let ghost before = s;
        let ghost (n0, s0, p0) = (nodes@, succs@, places@);
        let top = nodes.len() - 1;
        let node = nodes[top];
        let idx = places[top];
        let count = succs[top].len();
        proof {
            lemma_search_step_inv(g, entry, s);
            assert(s.stack[top as int] == s.stack.last());
            assert(frame_ok(g, s.stack[top as int], node, s0[top as int]@, idx));
            s = search_step(g, s);
            n = n + 1;
            lemma_seen_bounded(g, entry, s);
        }
        if idx < count {
            let succ = succs[top][count - 1 - idx];
            places.set(top, idx + 1);
            let known = seen.contains(succ);
            let ghost moved = before.stack.drop_last().push((node, (idx + 1) as nat));
            proof {
                assert(moved.drop_last() =~= before.stack.drop_last());
                assert(moved.last() == (node, (idx + 1) as nat));
            }
            if !known {
                seen.insert(succ);
                proof {
                    assert(g.has_node(s.seen[before.seen.len() as int]));
                }
                nodes.push(succ);
                succs.push(cfg_succs_of(f, succ));
                places.push(0);
                proof {
                    assert forall|m: NodeId| #[trigger] seen@.contains(m) <==> s.seen.contains(
                        m,
                    ) by {
                        lemma_push_member(before.seen, succ, m);
                    }
                }
            }
            proof {
                assert forall|i: int| 0 <= i < s.stack.len() implies frame_ok(
                    g,
                    #[trigger] s.stack[i],
                    nodes@[i],
                    succs@[i]@,
                    places@[i],
                ) by {
                    if i < top {
                        assert(before.stack[i] == s.stack[i]);
                        assert(n0[i] == nodes@[i] && s0[i] == succs@[i] && p0[i] == places@[i]);
                    } else if i == top {
                        assert(before.stack[i].0 == n0[i]);
                        assert(n0[i] == nodes@[i] && s0[i] == succs@[i]);
                        assert(s.stack[i] == (node, (idx + 1) as nat));
                    }
                }
            }
        } else {
            post.push(node);
            nodes.pop();
            succs.pop();
            places.pop();
            proof {
                assert forall|i: int| 0 <= i < s.stack.len() implies frame_ok(
                    g,
                    #[trigger] s.stack[i],
                    nodes@[i],
                    succs@[i]@,
                    places@[i],
                ) by {
                    assert(before.stack[i] == s.stack[i]);
                }
            }
        }
    }
    let mut r: Vec<NodeId> = Vec::new();
    let mut k: usize = post.len();
    while k > 0
        invariant
            k <= post.len(),
            r@.len() == post@.len() - k,
            forall|i: int| 0 <= i < r@.len() ==> #[trigger] r@[i] == post@[post@.len() - 1 - i],
        decreases k,
    {
        k -= 1;
        r.push(post[k]);
    }
    proof {
        assert(r@ =~= s.post.reverse());
        lemma_cfg_rpo_unique(g, entry, n);
        assert(s.seen.contains(s.seen[0]));
        assert(s.post.contains(entry));
        let x = s.post.index_of(entry);
        assert(r@[s.post.len() - 1 - x] == entry);
        assert forall|i: int| 0 <= i < r@.len() implies g.has_node(#[trigger] r@[i]) && reachable(
            g,
            entry,
            r@[i],
        ) by {
            assert(s.seen.contains(s.post[s.post.len() - 1 - i]));
            let y = s.seen.index_of(r@[i]);
            assert(g.has_node(s.seen[y]));
        }
    }
    r
}

pub(crate) proof fn lemma_seen_bounded(g: GraphModel, entry: NodeId, s: Search)
    requires
        search_inv(g, entry, s),
    ensures
        s.seen.len() <= g.nodes.len(),
{
    crate::entity_set::lemma_distinct_bounded(s.seen, g.nodes.len());
}

// -- the scheduler -----------------------------------------------------------------
/// Where a pulled node prints: in the block of a control node, or in the tail.
pub type Sink = Option<NodeId>;

/// A node to start on, or one whose inputs up to a slot have been looked at.
#[derive(Clone, Copy)]
pub enum Frame {
    Enter(NodeId),
    Resume(NodeId, usize),
}

/// The state of the scheduler.
#[verifier::ext_equal]
pub struct Sched {
    /// Nodes that were started, in order.
    pub visited: Seq<NodeId>,
    /// Nodes that were placed, in order, each with its sink.
    pub log: Seq<(NodeId, Sink)>,
    /// Phi inputs, each with the control node after which it is due.
    pub waiting: Seq<(NodeId, NodeId)>,
    /// Nodes to pull before the scheduler goes on, from `next_job` on.
    pub jobs: Seq<(NodeId, Sink)>,
    pub next_job: nat,
    /// The sink of the job at hand, and the work left on it.
    pub sink: Sink,
    pub stack: Seq<Frame>,
    /// Nodes to pull into `due_sink`, from `next_due` on.
    pub due: Seq<NodeId>,
    pub next_due: nat,
    pub due_sink: Sink,
    /// The place in the list of control nodes, or, once every block is done,
    /// in the order itself; and what has been done there.
    pub at: nat,
    pub stage: nat,
    pub sealed: bool,
}

/// The nodes of one sink, in the order they were placed.
pub open spec fn sunk(log: Seq<(NodeId, Sink)>, sink: Sink) -> Seq<NodeId>
    decreases log.len(),
{
    if log.len() == 0 {
        Seq::empty()
    } else if log.last().1 == sink {
        sunk(log.drop_last(), sink).push(log.last().0)
    } else {
        sunk(log.drop_last(), sink)
    }
}

/// The blocks of the first `k` control nodes, one after another.
pub open spec fn flat(log: Seq<(NodeId, Sink)>, rpo: Seq<NodeId>, k: int) -> Seq<NodeId>
    decreases k,
{
    if k <= 0 {
        Seq::empty()
    } else {
        flat(log, rpo, k - 1) + sunk(log, Some(rpo[k - 1]))
    }
}

/// The order that a log of placements stands for: block after block, then the
/// tail.
pub open spec fn order_of(log: Seq<(NodeId, Sink)>, rpo: Seq<NodeId>) -> Seq<NodeId> {
    flat(log, rpo, rpo.len() as int) + sunk(log, None)
}

/// What waits for a control node.
pub open spec fn waiting_for(waiting: Seq<(NodeId, NodeId)>, pred: NodeId) -> Seq<NodeId>
    decreases waiting.len(),
{
    if waiting.len() == 0 {
        Seq::empty()
    } else if waiting.last().0 == pred {
        waiting_for(waiting.drop_last(), pred).push(waiting.last().1)
    } else {
        waiting_for(waiting.drop_last(), pred)
    }
}

/// The control node from which the edge of a phi's input comes.
pub open spec fn edge_source(g: GraphModel, phi: NodeId, slot: int) -> Option<NodeId> {
    match region_of(g, phi) {
        Some(region) => if slot >= 1 && slot - 1 < g.ins(region).len() {
            Some(g.producer(g.ins(region)[slot - 1]))
        } else {
            None
        },
        None => None,
    }
}

/// Where the inputs of a phi go.
#[verifier::ext_equal]
pub struct Deferred {
    pub jobs: Seq<(NodeId, Sink)>,
    pub waiting: Seq<(NodeId, NodeId)>,
    pub here: Seq<NodeId>,
}

/// Where the first `k` inputs of a phi go: an input over an edge from a
/// control node goes to the block of that node, now if it was started and
/// else once it is; any other prints here.
pub open spec fn deferred(g: GraphModel, rpo: Seq<NodeId>, s: Sched, phi: NodeId, k: int) -> Deferred
    decreases k,
{
    if k <= 0 {
        Deferred { jobs: s.jobs, waiting: s.waiting, here: Seq::empty() }
    } else {
        let d = deferred(g, rpo, s, phi, k - 1);
        let producer = g.producer(g.ins(phi)[k - 1]);
        if s.visited.contains(producer) || rpo.contains(producer) {
            d
        } else {
            match edge_source(g, phi, k - 1) {
                Some(pred) => if rpo.contains(pred) && !s.sealed {
                    if s.visited.contains(pred) {
                        Deferred { jobs: d.jobs.push((producer, Some(pred))), ..d }
                    } else {
                        Deferred { waiting: d.waiting.push((pred, producer)), ..d }
                    }
                } else {
                    Deferred { here: d.here.push(producer), ..d }
                },
                None => Deferred { here: d.here.push(producer), ..d },
            }
        }
    }
}

/// Entries for nodes, the first on top.
pub open spec fn entering(nodes: Seq<NodeId>) -> Seq<Frame> {
    Seq::new(nodes.len(), |i: int| Frame::Enter(nodes[nodes.len() - 1 - i]))
}

/// Works on the frame on top: a started node looks at its inputs in turn, one
/// not yet started nor a control node before the node itself, and is placed
/// when none is left. A phi is placed first.
pub open spec fn pulled(g: GraphModel, rpo: Seq<NodeId>, s: Sched) -> Sched {
    let rest = s.stack.drop_last();
    match s.stack.last() {
        Frame::Enter(node) => if s.visited.contains(node) {
            Sched { stack: rest, ..s }
        } else {
            Sched { visited: s.visited.push(node), stack: rest.push(Frame::Resume(node, 0)), ..s }
        },
        Frame::Resume(node, slot) => if !phi_kind(g.kind(node)) && slot < g.ins(node).len() {
            let producer = g.producer(g.ins(node)[slot as int]);
            let again = rest.push(Frame::Resume(node, (slot + 1) as usize));
            if rpo.contains(producer) {
                Sched { stack: again, ..s }
            } else {
                Sched { stack: again.push(Frame::Enter(producer)), ..s }
            }
        } else if phi_kind(g.kind(node)) {
            let d = deferred(g, rpo, s, node, g.ins(node).len() as int);
            Sched {
                log: s.log.push((node, s.sink)),
                stack: rest + entering(d.here),
                jobs: d.jobs,
                waiting: d.waiting,
                ..s
            }
        } else {
            Sched { log: s.log.push((node, s.sink)), stack: rest, ..s }
        },
    }
}

/// What comes next when nothing is left to pull: each control node in turn,
/// then what waits for it; and, once that is done, the control successors of
/// each node placed so far.
pub open spec fn advanced(g: GraphModel, rpo: Seq<NodeId>, s: Sched) -> Sched {
    if !s.sealed {
        if s.at >= rpo.len() {
            Sched { sealed: true, at: 0, stage: 0, ..s }
        } else if s.stage == 0 {
            let node = rpo[s.at as int];
            Sched { due: seq![node], next_due: 0, due_sink: Some(node), stage: 1, ..s }
        } else if s.stage == 1 {
            let node = rpo[s.at as int];
            Sched {
                due: waiting_for(s.waiting, node),
                next_due: 0,
                due_sink: Some(node),
                stage: 2,
                ..s
            }
        } else {
            Sched { at: s.at + 1, stage: 0, ..s }
        }
    } else if s.at >= order_of(s.log, rpo).len() {
        s
    } else if s.stage == 0 {
        let node = order_of(s.log, rpo)[s.at as int];
        Sched { due: cfg_succs(g, node), next_due: 0, due_sink: None, stage: 1, ..s }
    } else {
        Sched { at: s.at + 1, stage: 0, ..s }
    }
}

/// One step of the scheduler.
pub open spec fn step(g: GraphModel, rpo: Seq<NodeId>, s: Sched) -> Sched {
    if s.stack.len() > 0 {
        pulled(g, rpo, s)
    } else if s.next_job < s.jobs.len() {
        let (node, sink) = s.jobs[s.next_job as int];
        Sched { stack: seq![Frame::Enter(node)], sink, next_job: s.next_job + 1, ..s }
    } else if s.next_due < s.due.len() {
        Sched {
            jobs: seq![(s.due[s.next_due as int], s.due_sink)],
            next_job: 0,
            next_due: s.next_due + 1,
            ..s
        }
    } else {
        advanced(g, rpo, s)
    }
}

/// Nothing is left to do.
pub open spec fn done(rpo: Seq<NodeId>, s: Sched) -> bool {
    &&& s.stack.len() == 0
    &&& s.next_job >= s.jobs.len()
    &&& s.next_due >= s.due.len()
    &&& s.sealed
    &&& s.at >= order_of(s.log, rpo).len()
}

pub open spec fn sched_start() -> Sched {
    Sched {
        visited: Seq::empty(),
        log: Seq::empty(),
        waiting: Seq::empty(),
        jobs: Seq::empty(),
        next_job: 0,
        sink: None,
        stack: Seq::empty(),
        due: Seq::empty(),
        next_due: 0,
        due_sink: None,
        at: 0,
        stage: 0,
        sealed: false,
    }
}

/// The scheduler after `n` steps.
pub open spec fn sched_after(g: GraphModel, rpo: Seq<NodeId>, n: nat) -> Sched
    decreases n,
{
    if n == 0 {
        sched_start()
    } else {
        step(g, rpo, sched_after(g, rpo, (n - 1) as nat))
    }
}

/// Where the scheduler puts each node, in the order in which it does.
pub open spec fn placements(g: GraphModel, entry: NodeId) -> Seq<(NodeId, Sink)> {
    let rpo = cfg_rpo(g, entry);
    let end = choose|n: nat| done(rpo, #[trigger] sched_after(g, rpo, n));
    sched_after(g, rpo, end).log
}

/// The order the scheduler settles on.
pub open spec fn scheduled(g: GraphModel, entry: NodeId) -> Seq<NodeId> {
    order_of(placements(g, entry), cfg_rpo(g, entry))
}

pub(crate) proof fn lemma_sched_settles(g: GraphModel, rpo: Seq<NodeId>, a: nat, b: nat)
    requires
        a <= b,
        done(rpo, sched_after(g, rpo, a)),
    ensures
        sched_after(g, rpo, b) == sched_after(g, rpo, a),
    decreases b - a,
{
    if a < b {
        lemma_sched_settles(g, rpo, a, (b - 1) as nat);
    }
}

/// There is one order to settle on.
pub proof fn lemma_scheduled_unique(g: GraphModel, entry: NodeId, n: nat)
    requires
        done(cfg_rpo(g, entry), sched_after(g, cfg_rpo(g, entry), n)),
    ensures
        placements(g, entry) == sched_after(g, cfg_rpo(g, entry), n).log,
        scheduled(g, entry) == order_of(
            sched_after(g, cfg_rpo(g, entry), n).log,
            cfg_rpo(g, entry),
        ),
{
    let rpo = cfg_rpo(g, entry);
    let m = choose|m: nat| done(rpo, #[trigger] sched_after(g, rpo, m));
    if m <= n {
        lemma_sched_settles(g, rpo, m, n);
    } else {
        lemma_sched_settles(g, rpo, n, m);
    }
}

// -- what holds of the scheduler ---------------------------------------------------

/// A node was started or is about to be.
pub open spec fn coming(s: Sched, n: NodeId) -> bool {
    ||| s.visited.contains(n)
    ||| s.stack.contains(Frame::Enter(n))
    ||| exists|j: int| s.next_job <= j < s.jobs.len() && (#[trigger] s.jobs[j]).0 == n
    ||| exists|j: int| s.next_due <= j < s.due.len() && #[trigger] s.due[j] == n
}

/// What waits for a control node has not been taken up yet.
pub open spec fn awaited(rpo: Seq<NodeId>, s: Sched, pred: NodeId) -> bool {
    !s.sealed && exists|j: int|
        0 <= j < rpo.len() && #[trigger] rpo[j] == pred && (j > s.at || (j == s.at && s.stage
            <= 1))
}

/// A node will be started in the end.
pub open spec fn pledged(rpo: Seq<NodeId>, s: Sched, n: NodeId) -> bool {
    ||| coming(s, n)
    ||| rpo.contains(n)
    ||| exists|w: int|
        0 <= w < s.waiting.len() && (#[trigger] s.waiting[w]).1 == n && awaited(
            rpo,
            s,
            s.waiting[w].0,
        )
}

/// A node that may be worked on.
pub open spec fn known(g: GraphModel, entry: NodeId, n: NodeId) -> bool {
    g.has_node(n) && reachable(g, entry, n)
}

/// A sink that exists.
pub open spec fn sink_ok(rpo: Seq<NodeId>, sealed: bool, sink: Sink) -> bool {
    match sink {
        Some(b) => !sealed && rpo.contains(b),
        None => true,
    }
}

pub open spec fn frame_node(frame: Frame) -> NodeId {
    match frame {
        Frame::Enter(n) => n,
        Frame::Resume(n, _) => n,
    }
}

pub open spec fn logged(log: Seq<(NodeId, Sink)>, n: NodeId) -> bool {
    exists|i: int| 0 <= i < log.len() && (#[trigger] log[i]).0 == n
}

/// Every node the scheduler holds can be reached, and every sink exists.
pub open spec fn sched_sound(g: GraphModel, entry: NodeId, rpo: Seq<NodeId>, s: Sched) -> bool {
    &&& forall|i: int| 0 <= i < s.visited.len() ==> known(g, entry, #[trigger] s.visited[i])
    &&& forall|i: int| 0 <= i < s.stack.len() ==> known(g, entry, frame_node(#[trigger] s.stack[i]))
    &&& forall|i: int| 0 <= i < s.jobs.len() ==> known(g, entry, (#[trigger] s.jobs[i]).0)
    &&& forall|i: int| 0 <= i < s.due.len() ==> known(g, entry, #[trigger] s.due[i])
    &&& forall|i: int| 0 <= i < s.waiting.len() ==> known(g, entry, (#[trigger] s.waiting[i]).1)
    &&& forall|i: int|
        0 <= i < s.waiting.len() ==> rpo.contains((#[trigger] s.waiting[i]).0)
    &&& forall|i: int|
        0 <= i < s.log.len() ==> sink_ok(rpo, false, (#[trigger] s.log[i]).1)
    &&& forall|i: int|
        s.next_job <= i < s.jobs.len() ==> sink_ok(rpo, s.sealed, (#[trigger] s.jobs[i]).1)
    &&& s.stack.len() > 0 ==> sink_ok(rpo, s.sealed, s.sink)
    &&& s.next_due < s.due.len() ==> sink_ok(rpo, s.sealed, s.due_sink)
    &&& s.stage <= 2
    &&& !s.sealed ==> s.at <= rpo.len()
    &&& s.next_job <= s.jobs.len()
    &&& s.next_due <= s.due.len()
}

/// A started node is placed once, or is being worked on once.
pub open spec fn sched_once(s: Sched) -> bool {
    &&& s.visited.no_duplicates()
    &&& forall|i: int, j: int|
        #![trigger s.log[i], s.log[j]]
        0 <= i < j < s.log.len() ==> s.log[i].0 != s.log[j].0
    &&& forall|i: int| 0 <= i < s.log.len() ==> s.visited.contains((#[trigger] s.log[i]).0)
    &&& forall|i: int|
        0 <= i < s.stack.len() && (#[trigger] s.stack[i]) is Resume ==> s.visited.contains(
            frame_node(s.stack[i]),
        ) && !logged(s.log, frame_node(s.stack[i]))
    &&& forall|i: int, j: int|
        #![trigger s.stack[i], s.stack[j]]
        0 <= i < j < s.stack.len() && s.stack[i] is Resume && s.stack[j] is Resume ==> frame_node(
            s.stack[i],
        ) != frame_node(s.stack[j])
    &&& forall|n: NodeId|
        #[trigger] s.visited.contains(n) ==> logged(s.log, n) || exists|i: int|
            0 <= i < s.stack.len() && (#[trigger] s.stack[i]) is Resume && frame_node(s.stack[i])
                == n
}

/// What a placed node reads, or a node being worked on has looked at, will be
/// started.
pub open spec fn sched_closed(g: GraphModel, rpo: Seq<NodeId>, s: Sched) -> bool {
    &&& forall|i: int, k: int|
        #![trigger s.log[i], g.ins(s.log[i].0)[k]]
        0 <= i < s.log.len() && 0 <= k < g.ins(s.log[i].0).len() ==> pledged(
            rpo,
            s,
            g.producer(g.ins(s.log[i].0)[k]),
        )
    &&& forall|i: int, k: int|
        #![trigger s.stack[i], g.ins(frame_node(s.stack[i]))[k]]
        0 <= i < s.stack.len() && s.stack[i] is Resume && 0 <= k < s.stack[i]->Resume_1 && k
            < g.ins(frame_node(s.stack[i])).len() ==> pledged(
            rpo,
            s,
            g.producer(g.ins(frame_node(s.stack[i]))[k]),
        )
    &&& forall|j: int|
        0 <= j < rpo.len() && (s.sealed || j < s.at || (j == s.at && s.stage >= 2))
            ==> s.visited.contains(#[trigger] rpo[j])
    &&& !s.sealed && s.at < rpo.len() && s.stage == 1 ==> coming(s, rpo[s.at as int])
    &&& !s.sealed && s.stage >= 1 ==> s.at < rpo.len()
    &&& s.sealed ==> s.at <= order_of(s.log, rpo).len() && s.stage <= 1
    &&& s.sealed && s.stage == 1 ==> s.at < order_of(s.log, rpo).len()
    &&& s.sealed ==> forall|i: int, k: int|
        #![trigger order_of(s.log, rpo)[i], cfg_succs(g, order_of(s.log, rpo)[i])[k]]
        0 <= i < order_of(s.log, rpo).len() && (i < s.at || (i == s.at && s.stage >= 1)) && 0 <= k
            < cfg_succs(g, order_of(s.log, rpo)[i]).len() ==> coming(
            s,
            cfg_succs(g, order_of(s.log, rpo)[i])[k],
        )
}

pub(crate) proof fn lemma_coming_step(g: GraphModel, rpo: Seq<NodeId>, s: Sched, n: NodeId)
    requires
        coming(s, n),
    ensures
        coming(step(g, rpo, s), n),
{
    let t = step(g, rpo, s);
    if s.visited.contains(n) {
        if s.stack.len() > 0 {
            match s.stack.last() {
                Frame::Enter(node) => {
                    lemma_push_member(s.visited, node, n);
                },
                _ => {},
            }
        }
    } else if s.stack.contains(Frame::Enter(n)) {
        let i = s.stack.index_of(Frame::Enter(n));
        let rest = s.stack.drop_last();
        if i < s.stack.len() - 1 {
            assert(rest[i] == Frame::Enter(n));
            assert(t.stack[i] == Frame::Enter(n));
        } else {
            lemma_push_member(s.visited, n, n);
        }
    } else if exists|j: int| s.next_job <= j < s.jobs.len() && (#[trigger] s.jobs[j]).0 == n {
        let j = choose|j: int| s.next_job <= j < s.jobs.len() && (#[trigger] s.jobs[j]).0 == n;
        if s.stack.len() > 0 {
            match s.stack.last() {
                Frame::Resume(node, _) => {
                    lemma_deferred_keeps(g, rpo, s, node, g.ins(node).len() as int);
                    assert(t.jobs[j] == s.jobs[j]);
                },
                _ => {
                    assert(t.jobs[j] == s.jobs[j]);
                },
            }
        } else if j == s.next_job {
            assert(t.stack[0] == Frame::Enter(n));
        } else {
            assert(t.jobs[j] == s.jobs[j]);
        }
    } else {
        let j = choose|j: int| s.next_due <= j < s.due.len() && #[trigger] s.due[j] == n;
        if s.stack.len() == 0 && s.next_job >= s.jobs.len() && j == s.next_due {
            assert(t.jobs[0].0 == n);
        } else {
            assert(t.due[j] == n);
        }
    }
}

pub(crate) proof fn lemma_deferred_keeps(g: GraphModel, rpo: Seq<NodeId>, s: Sched, phi: NodeId, k: int)
    requires
        0 <= k,
    ensures
        s.jobs.len() <= deferred(g, rpo, s, phi, k).jobs.len(),
        forall|j: int|
            0 <= j < s.jobs.len() ==> #[trigger] deferred(g, rpo, s, phi, k).jobs[j] == s.jobs[j],
        s.waiting.len() <= deferred(g, rpo, s, phi, k).waiting.len(),
        forall|j: int|
            0 <= j < s.waiting.len() ==> #[trigger] deferred(g, rpo, s, phi, k).waiting[j]
                == s.waiting[j],
    decreases k,
{
    if k > 0 {
        lemma_deferred_keeps(g, rpo, s, phi, k - 1);
    }
}

/// The weight of a deferral is bounded by the inputs.
pub(crate) proof fn lemma_deferred_weight(g: GraphModel, rpo: Seq<NodeId>, s: Sched, phi: NodeId, k: int)
    requires
        0 <= k,
    ensures
        deferred(g, rpo, s, phi, k).here.len() + 2 * (deferred(g, rpo, s, phi, k).jobs.len()
            - s.jobs.len()) <= 2 * k,
    decreases k,
{
    if k > 0 {
        lemma_deferred_weight(g, rpo, s, phi, k - 1);
    }
}

/// Each input of a phi is placed, being placed, or deferred.
pub(crate) proof fn lemma_deferred_covers(
    g: GraphModel,
    rpo: Seq<NodeId>,
    s: Sched,
    phi: NodeId,
    k: int,
    slot: int,
)
    requires
        0 <= slot < k <= g.ins(phi).len(),
    ensures
        ({
            let d = deferred(g, rpo, s, phi, k);
            let p = g.producer(g.ins(phi)[slot]);
            ||| s.visited.contains(p)
            ||| rpo.contains(p)
            ||| d.here.contains(p)
            ||| exists|j: int| s.jobs.len() <= j < d.jobs.len() && (#[trigger] d.jobs[j]).0 == p
            ||| exists|j: int|
                s.waiting.len() <= j < d.waiting.len() && (#[trigger] d.waiting[j]).1 == p
                    && rpo.contains(d.waiting[j].0) && !s.visited.contains(d.waiting[j].0)
                    && !s.sealed
        }),
    decreases k,
{
    let d = deferred(g, rpo, s, phi, k);
    let d0 = deferred(g, rpo, s, phi, k - 1);
    let p = g.producer(g.ins(phi)[slot]);
    lemma_deferred_keeps(g, rpo, s, phi, k - 1);
    if slot < k - 1 {
        lemma_deferred_covers(g, rpo, s, phi, k - 1, slot);
        if s.visited.contains(p) || rpo.contains(p) {
        } else if d0.here.contains(p) {
            let j = d0.here.index_of(p);
            assert(d.here[j] == p);
        } else if exists|j: int|
            s.jobs.len() <= j < d0.jobs.len() && (#[trigger] d0.jobs[j]).0 == p {
            let j = choose|j: int|
                s.jobs.len() <= j < d0.jobs.len() && (#[trigger] d0.jobs[j]).0 == p;
            assert(d.jobs[j] == d0.jobs[j]);
        } else {
            let j = choose|j: int|
                s.waiting.len() <= j < d0.waiting.len() && (#[trigger] d0.waiting[j]).1 == p
                    && rpo.contains(d0.waiting[j].0) && !s.visited.contains(d0.waiting[j].0)
                    && !s.sealed;
            assert(d.waiting[j] == d0.waiting[j]);
        }
    } else if !s.visited.contains(p) && !rpo.contains(p) {
        match edge_source(g, phi, slot) {
            Some(pred) => if rpo.contains(pred) && !s.sealed {
                if s.visited.contains(pred) {
                    assert(d.jobs[d0.jobs.len() as int].0 == p);
                } else {
                    assert(d.waiting[d0.waiting.len() as int] == (pred, p));
                }
            } else {
                assert(d.here[d0.here.len() as int] == p);
            },
            None => {
                assert(d.here[d0.here.len() as int] == p);
            },
        }
    }
}

/// What a deferral adds are producers of the phi's inputs.
pub(crate) proof fn lemma_deferred_sound(
    g: GraphModel,
    entry: NodeId,
    rpo: Seq<NodeId>,
    s: Sched,
    phi: NodeId,
    k: int,
)
    requires
        g.valid(),
        known(g, entry, phi),
        0 <= k <= g.ins(phi).len(),
    ensures
        ({
            let d = deferred(g, rpo, s, phi, k);
            &&& forall|j: int| 0 <= j < d.here.len() ==> known(g, entry, #[trigger] d.here[j])
            &&& forall|j: int|
                s.jobs.len() <= j < d.jobs.len() ==> known(g, entry, (#[trigger] d.jobs[j]).0)
                    && sink_ok(rpo, s.sealed, d.jobs[j].1)
            &&& forall|j: int|
                s.waiting.len() <= j < d.waiting.len() ==> known(
                    g,
                    entry,
                    (#[trigger] d.waiting[j]).1,
                ) && rpo.contains(d.waiting[j].0)
        }),
    decreases k,
{
    if k > 0 {
        lemma_deferred_sound(g, entry, rpo, s, phi, k - 1);
        lemma_deferred_keeps(g, rpo, s, phi, k - 1);
        lemma_known_producer(g, entry, phi, k - 1);
    }
}

pub(crate) proof fn lemma_known_producer(g: GraphModel, entry: NodeId, n: NodeId, i: int)
    requires
        g.valid(),
        known(g, entry, n),
        0 <= i < g.ins(n).len(),
    ensures
        known(g, entry, g.producer(g.ins(n)[i])),
{
    lemma_feeds_node(g, n, i);
    crate::graph::walk::lemma_reachable_step(g, entry, n, g.producer(g.ins(n)[i]));
}

pub(crate) proof fn lemma_known_succ(g: GraphModel, entry: NodeId, n: NodeId, k: int)
    requires
        g.valid(),
        known(g, entry, n),
        0 <= k < cfg_succs(g, n).len(),
    ensures
        known(g, entry, cfg_succs(g, n)[k]),
{
    let m = cfg_succs(g, n)[k];
    assert(cfg_succs(g, n).contains(m));
    lemma_cfg_succs(g, n, m);
    lemma_controls_node(g, n, m);
    crate::graph::walk::lemma_reachable_step(g, entry, n, m);
}

pub(crate) proof fn lemma_waiting_for(waiting: Seq<(NodeId, NodeId)>, pred: NodeId)
    ensures
        forall|i: int|
            0 <= i < waiting_for(waiting, pred).len() ==> exists|w: int|
                0 <= w < waiting.len() && waiting[w] == (
                    pred,
                    #[trigger] waiting_for(waiting, pred)[i],
                ),
        forall|w: int|
            0 <= w < waiting.len() && (#[trigger] waiting[w]).0 == pred ==> waiting_for(
                waiting,
                pred,
            ).contains(waiting[w].1),
    decreases waiting.len(),
{
    if waiting.len() > 0 {
        let rest = waiting.drop_last();
        let all = waiting_for(waiting, pred);
        let sub = waiting_for(rest, pred);
        lemma_waiting_for(rest, pred);
        assert forall|i: int| 0 <= i < all.len() implies exists|w: int|
            0 <= w < waiting.len() && waiting[w] == (pred, #[trigger] all[i]) by {
            if i < sub.len() {
                assert(all[i] == sub[i]);
                let w = choose|w: int| 0 <= w < rest.len() && rest[w] == (pred, sub[i]);
                assert(waiting[w] == (pred, all[i]));
            } else {
                assert(waiting[waiting.len() - 1] == (pred, all[i]));
            }
        }
        assert forall|w: int|
            0 <= w < waiting.len() && (#[trigger] waiting[w]).0 == pred implies all.contains(
            waiting[w].1,
        ) by {
            if w < rest.len() {
                assert(rest[w].0 == pred);
                assert(sub.contains(rest[w].1));
                let x = sub.index_of(rest[w].1);
                assert(all[x] == rest[w].1);
            } else {
                assert(all[sub.len() as int] == waiting[w].1);
            }
        }
    }
}

} // verus!
