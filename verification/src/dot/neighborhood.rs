//! The part of a graph around a node.

use super::args::build_arg_reverse_map;
use super::emitter::{dot_text, DotStyle};
use super::function_dot::{blank, with_nodes, FunctionDotDumper, Plan};
use crate::entity_set::{lemma_distinct_bounded, NodeIdSet};
use crate::function::func::Function;
use crate::graph::walk::{lemma_feeds_node, walk_order};
use crate::graph::model::GraphModel;
use crate::id_map::IdMap;
use crate::node::NodeId;
use vstd::prelude::*;

verus! {

/// The producers of the first `k` inputs of a node.
pub open spec fn producers_upto(g: GraphModel, n: NodeId, k: int) -> Seq<NodeId> {
    Seq::new(k as nat, |i: int| g.producer(g.ins(n)[i]))
}

/// The producers of the inputs of a node, slot by slot.
pub open spec fn inputs_from(g: GraphModel, n: NodeId) -> Seq<NodeId> {
    producers_upto(g, n, g.ins(n).len() as int)
}

/// `n` once for each of its first `k` inputs that `p` produces.
pub open spec fn reads_of(g: GraphModel, n: NodeId, p: NodeId, k: int) -> Seq<NodeId>
    decreases k,
{
    if k <= 0 {
        Seq::empty()
    } else if g.producer(g.ins(n)[k - 1]) == p {
        reads_of(g, n, p, k - 1).push(n)
    } else {
        reads_of(g, n, p, k - 1)
    }
}

/// The readers of a node among the first `k` nodes of a list, once for each
/// input.
pub open spec fn consumers_upto(g: GraphModel, order: Seq<NodeId>, p: NodeId, k: int) -> Seq<NodeId>
    decreases k,
{
    if k <= 0 {
        Seq::empty()
    } else {
        consumers_upto(g, order, p, k - 1) + reads_of(
            g,
            order[k - 1],
            p,
            g.ins(order[k - 1]).len() as int,
        )
    }
}

/// The readers of a node among the nodes of a list.
pub open spec fn consumers_in(g: GraphModel, order: Seq<NodeId>, p: NodeId) -> Seq<NodeId> {
    consumers_upto(g, order, p, order.len() as int)
}

/// The readers that a table lists.
pub open spec fn listed(map: &IdMap<Vec<NodeId>>, p: NodeId) -> Seq<NodeId> {
    match map.at(p.0) {
        Some(list) => list@,
        None => Seq::empty(),
    }
}

proof fn lemma_consumers_nodes(g: GraphModel, order: Seq<NodeId>, p: NodeId, k: int)
    requires
        0 <= k <= order.len(),
        forall|i: int| 0 <= i < order.len() ==> g.has_node(#[trigger] order[i]),
    ensures
        forall|i: int|
            0 <= i < consumers_upto(g, order, p, k).len() ==> g.has_node(
                #[trigger] consumers_upto(g, order, p, k)[i],
            ),
    decreases k,
{
    if k > 0 {
        lemma_consumers_nodes(g, order, p, k - 1);
        lemma_reads(g, order[k - 1], p, g.ins(order[k - 1]).len() as int);
        assert(g.has_node(order[k - 1]));
        let sub = consumers_upto(g, order, p, k - 1);
        let more = reads_of(g, order[k - 1], p, g.ins(order[k - 1]).len() as int);
        let all = consumers_upto(g, order, p, k);
        assert forall|i: int| 0 <= i < all.len() implies g.has_node(#[trigger] all[i]) by {
            if i < sub.len() {
                assert(all[i] == sub[i]);
            } else {
                assert(all[i] == more[i - sub.len()]);
            }
        }
    }
}

proof fn lemma_reads(g: GraphModel, n: NodeId, p: NodeId, k: int)
    ensures
        forall|i: int| 0 <= i < reads_of(g, n, p, k).len() ==> #[trigger] reads_of(g, n, p, k)[i] == n,
    decreases k,
{
    if k > 0 {
        lemma_reads(g, n, p, k - 1);
        let sub = reads_of(g, n, p, k - 1);
        let all = reads_of(g, n, p, k);
        assert forall|i: int| 0 <= i < all.len() implies #[trigger] all[i] == n by {
            if i < sub.len() {
                assert(sub[i] == n);
            }
        }
    }
}

fn add_reader(map: &mut IdMap<Vec<NodeId>>, p: NodeId, n: NodeId)
    ensures
        forall|q: NodeId| #[trigger]
            listed(final(map), q) == if q == p {
                listed(old(map), q).push(n)
            } else {
                listed(old(map), q)
            },
{
    let mut list = match map.take(p.0) {
        Some(list) => list,
        None => Vec::new(),
    };
    list.push(n);
    map.insert(p.0, list);
    proof {
        assert(list@ =~= listed(old(map), p).push(n));
        assert forall|q: NodeId| #[trigger] listed(map, q) == if q == p {
            listed(old(map), q).push(n)
        } else {
            listed(old(map), q)
        } by {
            if q.0 == p.0 {
                assert(q == p);
            }
        }
    }
}

/// The readers of each node, in the order of a walk.
pub fn build_consumers(f: &Function) -> (r: IdMap<Vec<NodeId>>)
    requires
        f.wf(),
    ensures
        forall|p: NodeId| #[trigger]
            listed(&r, p) == consumers_in(f.g(), walk_order(f.g(), f.entry_node()), p),
        forall|p: NodeId, i: int|
            0 <= i < listed(&r, p).len() ==> f.g().has_node(#[trigger] listed(&r, p)[i]),
{
    proof {
        f.lemma_wf();
    }
    let ghost g = f.g();
    let nodes = f.walk();
    let mut r: IdMap<Vec<NodeId>> = IdMap::new();
    let mut i: usize = 0;
    while i < nodes.len()
        invariant
            f.wf(),
            g == f.g(),
            g.valid(),
            i <= nodes.len(),
            forall|k: int| 0 <= k < nodes@.len() ==> g.has_node(#[trigger] nodes@[k]),
            forall|p: NodeId| #[trigger] listed(&r, p) == consumers_upto(g, nodes@, p, i as int),
        decreases nodes.len() - i,
    {
        let node = nodes[i];
        let count = f.node_inputs(node).len();
        let mut k: usize = 0;
        proof {
            assert forall|p: NodeId| #[trigger]
                listed(&r, p) == consumers_upto(g, nodes@, p, i as int) + reads_of(
                    g,
                    node,
                    p,
                    0,
                ) by {
                assert(reads_of(g, node, p, 0) =~= Seq::empty());
                assert(consumers_upto(g, nodes@, p, i as int) + reads_of(g, node, p, 0)
                    =~= consumers_upto(g, nodes@, p, i as int));
            }
        }
        while k < count
            invariant
                f.wf(),
                g == f.g(),
                g.valid(),
                g.has_node(node),
                count == g.ins(node).len(),
                k <= count,
                forall|p: NodeId| #[trigger]
                    listed(&r, p) == consumers_upto(g, nodes@, p, i as int) + reads_of(
                        g,
                        node,
                        p,
                        k as int,
                    ),
            decreases count - k,
        {
            let ghost before = r;
            proof {
                lemma_feeds_node(g, node, k as int);
            }
            let producer = f.producer(f.node_inputs(node).at(k));
            add_reader(&mut r, producer, node);
            k += 1;
            proof {
                assert forall|p: NodeId| #[trigger]
                    listed(&r, p) == consumers_upto(g, nodes@, p, i as int) + reads_of(
                        g,
                        node,
                        p,
                        k as int,
                    ) by {
                    assert(listed(&before, p) == consumers_upto(g, nodes@, p, i as int) + reads_of(
                        g,
                        node,
                        p,
                        k - 1,
                    ));
                    assert(listed(&r, p) =~= consumers_upto(g, nodes@, p, i as int) + reads_of(
                        g,
                        node,
                        p,
                        k as int,
                    ));
                }
            }
        }
        i += 1;
    }
    proof {
        assert forall|p: NodeId, x: int| 0 <= x < listed(&r, p).len() implies g.has_node(
            #[trigger] listed(&r, p)[x],
        ) by {
            lemma_consumers_nodes(g, nodes@, p, nodes@.len() as int);
        }
    }
    r
}

/// The nodes that produce the inputs of a node.
pub fn producers(f: &Function, node: NodeId) -> (r: Vec<NodeId>)
    requires
        f.wf(),
        f.g().has_node(node),
    ensures
        r@ == inputs_from(f.g(), node),
        forall|i: int| 0 <= i < r@.len() ==> f.g().has_node(#[trigger] r@[i]),
{
    proof {
        f.lemma_wf();
    }
    let count = f.node_inputs(node).len();
    let mut r: Vec<NodeId> = Vec::new();
    let mut k: usize = 0;
    while k < count
        invariant
            f.wf(),
            f.g().valid(),
            f.g().has_node(node),
            count == f.g().ins(node).len(),
            k <= count,
            r@ =~= producers_upto(f.g(), node, k as int),
            forall|i: int| 0 <= i < r@.len() ==> f.g().has_node(#[trigger] r@[i]),
        decreases count - k,
    {
        proof {
            lemma_feeds_node(f.g(), node, k as int);
        }
        r.push(f.producer(f.node_inputs(node).at(k)));
        k += 1;
    }
    r
}

// -- the search --------------------------------------------------------------------

/// The limits of a search: how far it goes, how many neighbours make a node a
/// hub, how many nodes it may find, and whether producers count for a hub.
#[derive(Clone, Copy)]
pub struct Limits {
    pub depth: usize,
    pub hub_cap: usize,
    pub max_nodes: usize,
    pub count_producers: bool,
}

/// A search under way: the nodes found, each with its distance, the place of
/// the next one to expand, and whether the budget is spent.
#[verifier::ext_equal]
pub struct Spread {
    pub found: Seq<(NodeId, nat)>,
    pub at: nat,
    pub full: bool,
}

pub open spec fn is_found(found: Seq<(NodeId, nat)>, n: NodeId) -> bool {
    exists|i: int| 0 <= i < found.len() && (#[trigger] found[i]).0 == n
}

/// The neighbours that a search goes on to: the producers, and, unless the
/// node is a hub, the readers. The centre is never a hub.
pub open spec fn neighbors(
    g: GraphModel,
    center: NodeId,
    lim: Limits,
    cons: Seq<NodeId>,
    n: NodeId,
) -> Seq<NodeId> {
    let prod = inputs_from(g, n);
    let degree = cons.len() + if lim.count_producers {
        prod.len()
    } else {
        0
    };
    if n != center && degree > lim.hub_cap {
        prod
    } else {
        prod + cons
    }
}

/// The search once the first `k` neighbours were offered: each that is new is
/// found, until the budget is spent.
pub open spec fn offered(st: Spread, lim: Limits, dist: nat, nbs: Seq<NodeId>, k: int) -> Spread
    decreases k,
{
    if k <= 0 {
        st
    } else {
        let t = offered(st, lim, dist, nbs, k - 1);
        if t.full {
            t
        } else if t.found.len() >= lim.max_nodes {
            Spread { full: true, ..t }
        } else if is_found(t.found, nbs[k - 1]) {
            t
        } else {
            Spread { found: t.found.push((nbs[k - 1], dist + 1)), ..t }
        }
    }
}

/// Nothing is left to expand.
pub open spec fn spent(st: Spread) -> bool {
    st.full || st.at >= st.found.len()
}

/// One step: expand the next node, unless it is as far as the search goes.
pub open spec fn spread_step(
    g: GraphModel,
    center: NodeId,
    lim: Limits,
    cons: spec_fn(NodeId) -> Seq<NodeId>,
    st: Spread,
) -> Spread {
    if spent(st) {
        st
    } else {
        let (n, dist) = st.found[st.at as int];
        let next = Spread { at: st.at + 1, ..st };
        if dist >= lim.depth {
            next
        } else {
            let nbs = neighbors(g, center, lim, cons(n), n);
            offered(next, lim, dist, nbs, nbs.len() as int)
        }
    }
}

/// The search after `k` steps.
pub open spec fn spread_after(
    g: GraphModel,
    center: NodeId,
    lim: Limits,
    cons: spec_fn(NodeId) -> Seq<NodeId>,
    k: nat,
) -> Spread
    decreases k,
{
    if k == 0 {
        Spread { found: seq![(center, 0nat)], at: 0, full: false }
    } else {
        spread_step(g, center, lim, cons, spread_after(g, center, lim, cons, (k - 1) as nat))
    }
}

/// The nodes of the neighbourhood.
pub open spec fn neighborhood(
    g: GraphModel,
    center: NodeId,
    lim: Limits,
    cons: spec_fn(NodeId) -> Seq<NodeId>,
) -> Set<NodeId> {
    let end = choose|k: nat| spent(#[trigger] spread_after(g, center, lim, cons, k));
    Set::new(|n: NodeId| is_found(spread_after(g, center, lim, cons, end).found, n))
}

proof fn lemma_spread_settles(
    g: GraphModel,
    center: NodeId,
    lim: Limits,
    cons: spec_fn(NodeId) -> Seq<NodeId>,
    a: nat,
    b: nat,
)
    requires
        a <= b,
        spent(spread_after(g, center, lim, cons, a)),
    ensures
        spread_after(g, center, lim, cons, b) == spread_after(g, center, lim, cons, a),
    decreases b - a,
{
    if a < b {
        lemma_spread_settles(g, center, lim, cons, a, (b - 1) as nat);
    }
}

/// There is one neighbourhood.
pub(crate) proof fn lemma_neighborhood_unique(
    g: GraphModel,
    center: NodeId,
    lim: Limits,
    cons: spec_fn(NodeId) -> Seq<NodeId>,
    k: nat,
)
    requires
        spent(spread_after(g, center, lim, cons, k)),
    ensures
        neighborhood(g, center, lim, cons) == Set::new(
            |n: NodeId| is_found(spread_after(g, center, lim, cons, k).found, n),
        ),
{
    let m = choose|m: nat| spent(#[trigger] spread_after(g, center, lim, cons, m));
    if m <= k {
        lemma_spread_settles(g, center, lim, cons, m, k);
    } else {
        lemma_spread_settles(g, center, lim, cons, k, m);
    }
}

/// Nodes are found in order of their distance, none of them too far.
pub open spec fn level_order(lim: Limits, st: Spread) -> bool {
    &&& st.found.len() > 0
    &&& forall|i: int, j: int|
        #![trigger st.found[i], st.found[j]]
        0 <= i < j < st.found.len() ==> st.found[i].1 <= st.found[j].1
    &&& forall|i: int| 0 <= i < st.found.len() ==> (#[trigger] st.found[i]).1 <= lim.depth
    &&& forall|i: int|
        #![trigger st.found[i]]
        0 <= i < st.found.len() && st.at < st.found.len() ==> st.found[i].1
            <= st.found[st.at as int].1 + 1
}

proof fn lemma_offered_level(st: Spread, lim: Limits, dist: nat, nbs: Seq<NodeId>, k: int)
    requires
        st.found.len() > 0,
        forall|i: int, j: int|
            #![trigger st.found[i], st.found[j]]
            0 <= i < j < st.found.len() ==> st.found[i].1 <= st.found[j].1,
        forall|i: int| 0 <= i < st.found.len() ==> (#[trigger] st.found[i]).1 <= dist + 1,
    ensures
        ({
            let t = offered(st, lim, dist, nbs, k);
            &&& st.found.len() <= t.found.len()
            &&& t.at == st.at
            &&& forall|i: int| 0 <= i < st.found.len() ==> #[trigger] t.found[i] == st.found[i]
            &&& forall|i: int|
                st.found.len() <= i < t.found.len() ==> (#[trigger] t.found[i]).1 == dist + 1
            &&& forall|i: int, j: int|
                #![trigger t.found[i], t.found[j]]
                0 <= i < j < t.found.len() ==> t.found[i].1 <= t.found[j].1
        }),
    decreases k,
{
    if k > 0 {
        lemma_offered_level(st, lim, dist, nbs, k - 1);
        let u = offered(st, lim, dist, nbs, k - 1);
        let t = offered(st, lim, dist, nbs, k);
        assert forall|i: int, j: int|
            #![trigger t.found[i], t.found[j]]
            0 <= i < j < t.found.len() implies t.found[i].1 <= t.found[j].1 by {
            if j < u.found.len() {
                assert(t.found[i] == u.found[i] && t.found[j] == u.found[j]);
            } else {
                assert(t.found[i] == u.found[i]);
                if i < st.found.len() {
                    assert(u.found[i] == st.found[i]);
                }
            }
        }
    }
}

/// The search visits level after level, so that a budget keeps the nearest
/// nodes.
pub proof fn law_nearest_first(
    g: GraphModel,
    center: NodeId,
    lim: Limits,
    cons: spec_fn(NodeId) -> Seq<NodeId>,
    k: nat,
)
    ensures
        level_order(lim, spread_after(g, center, lim, cons, k)),
    decreases k,
{
    if k > 0 {
        law_nearest_first(g, center, lim, cons, (k - 1) as nat);
        let st = spread_after(g, center, lim, cons, (k - 1) as nat);
        let t = spread_after(g, center, lim, cons, k);
        if !spent(st) {
            let (n, dist) = st.found[st.at as int];
            let next = Spread { at: st.at + 1, ..st };
            if dist < lim.depth {
                let nbs = neighbors(g, center, lim, cons(n), n);
                lemma_offered_level(next, lim, dist, nbs, nbs.len() as int);
            }
            assert forall|i: int|
                #![trigger t.found[i]]
                0 <= i < t.found.len() && t.at < t.found.len() implies t.found[i].1
                <= t.found[t.at as int].1 + 1 by {
                assert(t.found[st.at as int] == st.found[st.at as int]);
                assert(t.found[st.at as int].1 <= t.found[t.at as int].1);
                if i < st.found.len() {
                    assert(t.found[i] == st.found[i]);
                }
            }
        }
    }
}

/// The nodes found, one after another.
pub open spec fn found_nodes(found: Seq<(NodeId, nat)>) -> Seq<NodeId> {
    Seq::new(found.len(), |i: int| found[i].0)
}

/// What holds of a search all along.
spec fn spread_ok(g: GraphModel, center: NodeId, lim: Limits, st: Spread) -> bool {
    &&& found_nodes(st.found).no_duplicates()
    &&& forall|i: int| 0 <= i < st.found.len() ==> g.has_node((#[trigger] st.found[i]).0)
    &&& st.found.len() > 0
    &&& st.found[0].0 == center
    &&& st.at <= st.found.len()
    &&& st.found.len() <= lim.max_nodes || st.found.len() == 1
}

pub(crate) proof fn lemma_found_push(found: Seq<(NodeId, nat)>, n: NodeId, d: nat, m: NodeId)
    ensures
        is_found(found.push((n, d)), m) <==> is_found(found, m) || m == n,
{
    let next = found.push((n, d));
    if is_found(found, m) {
        let i = choose|i: int| 0 <= i < found.len() && (#[trigger] found[i]).0 == m;
        assert(next[i].0 == m);
    }
    if m == n {
        assert(next[found.len() as int].0 == m);
    }
    if is_found(next, m) {
        let i = choose|i: int| 0 <= i < next.len() && (#[trigger] next[i]).0 == m;
        if i < found.len() {
            assert(found[i].0 == m);
        }
    }
}

/// The nodes around `center`, over inputs and outputs, up to `depth` steps
/// away. The readers of a node with too many neighbours are left out, or a
/// memory state or a hot constant would pull the whole function in. The
/// nearest nodes come first, so that `max_nodes` keeps those.
pub fn neighborhood_nodes(
    f: &Function,
    center: NodeId,
    depth: usize,
    hub_cap: usize,
    max_nodes: usize,
    count_producers: bool,
    consumers: &IdMap<Vec<NodeId>>,
) -> (r: NodeIdSet)
    requires
        f.wf(),
        f.g().has_node(center),
        forall|p: NodeId, i: int|
            0 <= i < listed(consumers, p).len() ==> f.g().has_node(
                #[trigger] listed(consumers, p)[i],
            ),
    ensures
        r@ == neighborhood(
            f.g(),
            center,
            (Limits { depth, hub_cap, max_nodes, count_producers }),
            |p: NodeId| listed(consumers, p),
        ),
        r@.contains(center),
        forall|n: NodeId| #[trigger] r@.contains(n) ==> f.g().has_node(n),
        r@.finite(),
        r@.len() <= max_nodes || r@.len() == 1,
{
    proof {
        f.lemma_wf();
    }
    let lim = Limits { depth, hub_cap, max_nodes, count_producers };
    let ghost g = f.g();
    let ghost cons = |p: NodeId| listed(consumers, p);
    let mut set = NodeIdSet::new();
    set.insert(center);
    let mut queue: Vec<(NodeId, usize)> = Vec::new();
    queue.push((center, 0));
    let mut at: usize = 0;
    let mut full = false;
    let ghost mut st = Spread { found: seq![(center, 0nat)], at: 0, full: false };
    let ghost mut steps: nat = 0;
    proof {
        assert(found_nodes(st.found) =~= seq![center]);
        assert forall|n: NodeId| #[trigger] set@.contains(n) <==> is_found(st.found, n) by {
            if n == center {
                assert(st.found[0].0 == n);
            }
        }
    }
    while !full && at < queue.len()
        invariant
            f.wf(),
            g == f.g(),
            g.valid(),
            lim == (Limits { depth, hub_cap, max_nodes, count_producers }),
            cons == |p: NodeId| listed(consumers, p),
            forall|p: NodeId, i: int|
                0 <= i < listed(consumers, p).len() ==> g.has_node(
                    #[trigger] listed(consumers, p)[i],
                ),
            st == spread_after(g, center, lim, cons, steps),
            spread_ok(g, center, lim, st),
            full == st.full,
            at == st.at,
            holds_found(queue@, st.found),
            forall|n: NodeId| #[trigger] set@.contains(n) <==> is_found(st.found, n),
        decreases g.nodes.len() - at,
    {
        let (node, dist) = queue[at];
        proof {
            lemma_found_bounded(g, center, lim, st);
            assert(st.found[at as int] == (node, dist as nat));
        }
        let ghost before = st;
        at += 1;
        proof {
            st = Spread { at: st.at + 1, ..st };
            steps = steps + 1;
        }
        if dist < depth {
            let mut nbs = producers(f, node);
            let ghost prod = nbs@;
            let degree_producers: usize = if count_producers {
                nbs.len()
            } else {
                0
            };
            let hub = match consumers.get(node.0) {
                Some(list) => node.0 != center.0 && (degree_producers > hub_cap || list.len()
                    > hub_cap - degree_producers),
                None => node.0 != center.0 && degree_producers > hub_cap,
            };
            if !hub {
                if let Some(list) = consumers.get(node.0) {
                    let mut i: usize = 0;
                    while i < list.len()
                        invariant
                            i <= list.len(),
                            list@ == listed(consumers, node),
                            forall|p: NodeId, i: int|
                                0 <= i < listed(consumers, p).len() ==> g.has_node(
                                    #[trigger] listed(consumers, p)[i],
                                ),
                            nbs@ == prod + list@.take(i as int),
                            forall|k: int| 0 <= k < nbs@.len() ==> g.has_node(#[trigger] nbs@[k]),
                        decreases list.len() - i,
                    {
                        assert(g.has_node(listed(consumers, node)[i as int]));
                        nbs.push(list[i]);
                        i += 1;
                        assert(nbs@ =~= prod + list@.take(i as int));
                    }
                    assert(list@.take(i as int) =~= list@);
                } else {
                    assert(prod + listed(consumers, node) =~= prod);
                }
            }
            assert(nbs@ == neighbors(g, center, lim, cons(node), node));
            let ghost from = st;
            let mut k: usize = 0;
            while k < nbs.len()
                invariant
                    g.valid(),
                    lim == (Limits { depth, hub_cap, max_nodes, count_producers }),
                    k <= nbs.len(),
                    dist < depth,
                    st == offered(from, lim, dist as nat, nbs@, k as int),
                    spread_ok(g, center, lim, st),
                    full == st.full,
                    at == st.at,
                    holds_found(queue@, st.found),
                    forall|n: NodeId| #[trigger] set@.contains(n) <==> is_found(st.found, n),
                    forall|i: int| 0 <= i < nbs@.len() ==> g.has_node(#[trigger] nbs@[i]),
                decreases nbs.len() - k,
            {
                let nb = nbs[k];
                if !full {
                    if queue.len() >= max_nodes {
                        full = true;
                        proof {
                            st = Spread { full: true, ..st };
                        }
                    } else if set.insert(nb) {
                        queue.push((nb, dist + 1));
                        proof {
                            let old_found = st.found;
                            let next = st.found.push((nb, (dist + 1) as nat));
                            assert forall|n: NodeId| #[trigger]
                                set@.contains(n) <==> is_found(next, n) by {
                                lemma_found_push(old_found, nb, (dist + 1) as nat, n);
                            }
                            assert(found_nodes(next) =~= found_nodes(old_found).push(nb));
                            assert(!found_nodes(old_found).contains(nb)) by {
                                if found_nodes(old_found).contains(nb) {
                                    let x = found_nodes(old_found).index_of(nb);
                                    assert(old_found[x].0 == nb);
                                }
                            }
                            assert forall|i: int, j: int|
                                0 <= i < found_nodes(next).len() && 0 <= j < found_nodes(next).len()
                                    && i != j implies found_nodes(next)[i] != found_nodes(next)[j] by {
                                if i == old_found.len() {
                                    assert(found_nodes(old_found).contains(
                                        found_nodes(old_found)[j],
                                    ));
                                } else if j == old_found.len() {
                                    assert(found_nodes(old_found).contains(
                                        found_nodes(old_found)[i],
                                    ));
                                }
                            }
                            st = Spread { found: next, ..st };
                        }
                    } else {
                        proof {
                            assert(is_found(st.found, nb));
                            assert(set@ =~= set@.insert(nb));
                        }
                    }
                }
                k += 1;
            }
        }
        proof {
            lemma_found_bounded(g, center, lim, st);
        }
    }
    proof {
        lemma_neighborhood_unique(g, center, lim, cons, steps);
        assert(set@ =~= neighborhood(g, center, lim, cons));
        assert(is_found(st.found, center)) by {
            assert(st.found[0].0 == center);
        }
        assert forall|n: NodeId| #[trigger] set@.contains(n) implies g.has_node(n) by {
            let i = choose|i: int| 0 <= i < st.found.len() && (#[trigger] st.found[i]).0 == n;
            assert(g.has_node(st.found[i].0));
        }
        let nodes = found_nodes(st.found);
        nodes.unique_seq_to_set();
        assert(nodes.to_set() =~= set@) by {
            assert forall|n: NodeId| #[trigger] set@.contains(n) <==> nodes.to_set().contains(n) by {
                if is_found(st.found, n) {
                    let i = choose|i: int| 0 <= i < st.found.len() && (#[trigger] st.found[i]).0 == n;
                    assert(nodes[i] == n);
                }
                if nodes.contains(n) {
                    let i = nodes.index_of(n);
                    assert(st.found[i].0 == n);
                }
            }
        }
    }
    set
}

/// A queue holds what was found.
spec fn holds_found(queue: Seq<(NodeId, usize)>, found: Seq<(NodeId, nat)>) -> bool {
    &&& queue.len() == found.len()
    &&& forall|i: int|
        0 <= i < queue.len() ==> found[i] == ((#[trigger] queue[i]).0, queue[i].1 as nat)
}

proof fn lemma_found_bounded(g: GraphModel, center: NodeId, lim: Limits, st: Spread)
    requires
        spread_ok(g, center, lim, st),
    ensures
        st.found.len() <= g.nodes.len(),
{
    let nodes = found_nodes(st.found);
    assert forall|i: int| 0 <= i < nodes.len() implies g.has_node(#[trigger] nodes[i]) by {
        assert(g.has_node(st.found[i].0));
    }
    lemma_distinct_bounded(nodes, g.nodes.len());
}

impl<'a> FunctionDotDumper<'a> {
    /// The plan of a drawing of the nodes around `center`.
    pub open spec fn around(&self, center: NodeId, lim: Limits) -> Plan {
        Plan {
            f: *self.function,
            names: *self.naming,
            nodes: Some(
                neighborhood(
                    self.function.g(),
                    center,
                    lim,
                    |p: NodeId|
                        consumers_in(
                            self.function.g(),
                            walk_order(self.function.g(), self.function.entry_node()),
                            p,
                        ),
                ),
            ),
            center: Some(center),
        }
    }

    /// A drawing of the nodes around `center`, which is marked. Nodes keep
    /// their numbers as ids.
    pub fn neighborhood_dot(
        &self,
        center: NodeId,
        depth: usize,
        hub_cap: usize,
        max_nodes: usize,
        count_producers: bool,
    ) -> (r: String)
        requires
            self.wf(),
            self.function.g().has_node(center),
        ensures
            exists|order: Seq<NodeId>| #[trigger]
                ascending_nodes(order) && {
                    let plan = self.around(
                        center,
                        (Limits { depth, hub_cap, max_nodes, count_producers }),
                    );
                    &&& forall|n: NodeId| #[trigger] order.contains(n) <==> plan.nodes->0.contains(n)
                    &&& r@ == dot_text(
                        "G"@,
                        DotStyle::Dark,
                        with_nodes(&plan, blank(), order, order.len() as int).stmts,
                    )
                },
    {
        let consumers = build_consumers(self.function);
        let set = neighborhood_nodes(
            self.function,
            center,
            depth,
            hub_cap,
            max_nodes,
            count_producers,
            &consumers,
        );
        let restricted = FunctionDotDumper {
            entry: self.entry,
            function: self.function,
            naming: self.naming,
            node_to_arg_indices: build_arg_reverse_map(self.function),
            nodes: Some(set),
            center: Some(center),
        };
        let r = restricted.as_dot(DotStyle::dark());
        proof {
            let g = self.function.g();
            let lim = Limits { depth, hub_cap, max_nodes, count_producers };
            let walk = walk_order(g, self.function.entry_node());
            let a = |p: NodeId| listed(&consumers, p);
            let b = |p: NodeId| consumers_in(g, walk, p);
            assert(a =~= b);
            let plan = self.around(center, lim);
            assert(restricted.plan() == plan);
            let order = choose|order: Seq<NodeId>| #[trigger]
                restricted.draws(order) && r@ == dot_text(
                    "G"@,
                    DotStyle::Dark,
                    with_nodes(&plan, blank(), order, order.len() as int).stmts,
                );
            assert(restricted.draws(order));
            assert(ascending_nodes(order));
        }
        r
    }
}

/// Nodes by number.
pub open spec fn ascending_nodes(order: Seq<NodeId>) -> bool {
    forall|i: int, j: int| 0 <= i < j < order.len() ==> order[i].0 < order[j].0
}

} // verus!
