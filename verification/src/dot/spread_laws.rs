//! What a neighbourhood holds.

use super::neighborhood::{
    consumers_in, consumers_upto, is_found, lemma_found_push, lemma_neighborhood_unique, neighborhood,
    neighbors, offered, reads_of, spent, spread_after, Limits, Spread,
};
use crate::graph::model::GraphModel;
use crate::graph::walk::feeds;
use crate::node::NodeId;
use vstd::prelude::*;

verus! {

/// What offering neighbours does: it adds those that are new, one step farther,
/// until there are enough.
proof fn lemma_offered(st: Spread, lim: Limits, dist: nat, nbs: Seq<NodeId>, k: int)
    requires
        0 <= k <= nbs.len(),
    ensures
        ({
            let t = offered(st, lim, dist, nbs, k);
            &&& t.at == st.at
            &&& st.found.len() <= t.found.len()
            &&& forall|i: int| 0 <= i < st.found.len() ==> #[trigger] t.found[i] == st.found[i]
            &&& forall|i: int|
                st.found.len() <= i < t.found.len() ==> (#[trigger] t.found[i]).1 == dist + 1
                    && nbs.contains(t.found[i].0)
            &&& t.full || forall|j: int| 0 <= j < k ==> is_found(t.found, #[trigger] nbs[j])
            &&& t.full ==> st.full || t.found.len() >= lim.max_nodes
        }),
    decreases k,
{
    if k > 0 {
        lemma_offered(st, lim, dist, nbs, k - 1);
        let s = offered(st, lim, dist, nbs, k - 1);
        let t = offered(st, lim, dist, nbs, k);
        if !t.full {
            assert forall|j: int| 0 <= j < k implies is_found(t.found, #[trigger] nbs[j]) by {
                if j < k - 1 {
                    assert(is_found(s.found, nbs[j]));
                }
                lemma_found_push(s.found, nbs[k - 1], dist + 1, nbs[j]);
            }
        }
        assert(nbs.contains(nbs[k - 1]));
    }
}

/// A hub: not the centre, and with more neighbours than allowed.
spec fn cut_off(g: GraphModel, center: NodeId, lim: Limits, readers: Seq<NodeId>, n: NodeId) -> bool {
    n != center && readers.len() + (if lim.count_producers {
        g.ins(n).len()
    } else {
        0
    }) > lim.hub_cap
}

proof fn lemma_neighbors(
    g: GraphModel,
    center: NodeId,
    lim: Limits,
    readers: Seq<NodeId>,
    n: NodeId,
    m: NodeId,
)
    ensures
        neighbors(g, center, lim, readers, n).contains(m) <==> feeds(g, n, m) || (!cut_off(
            g,
            center,
            lim,
            readers,
            n,
        ) && readers.contains(m)),
{
    let all = neighbors(g, center, lim, readers, n);
    let prod = super::neighborhood::inputs_from(g, n);
    if all.contains(m) {
        let i = all.index_of(m);
        if i < prod.len() {
            assert(g.producer(g.ins(n)[i]) == m);
        } else {
            assert(readers[i - prod.len()] == m);
        }
    }
    if feeds(g, n, m) {
        let i = choose|i: int| 0 <= i < g.ins(n).len() && g.producer(#[trigger] g.ins(n)[i]) == m;
        assert(prod[i] == m);
        assert(all[i] == m);
    }
    if !cut_off(g, center, lim, readers, n) && readers.contains(m) {
        let i = readers.index_of(m);
        assert(all[prod.len() + i] == m);
    }
}

/// What holds all along.
spec fn spread_inv(
    g: GraphModel,
    center: NodeId,
    lim: Limits,
    cons: spec_fn(NodeId) -> Seq<NodeId>,
    st: Spread,
) -> bool {
    &&& st.found.len() > 0
    &&& st.found[0] == (center, 0nat)
    &&& st.full ==> st.found.len() >= lim.max_nodes
    &&& forall|i: int|
        0 < i < st.found.len() ==> #[trigger] came_from(g, center, lim, cons, st.found, i)
    &&& st.full || forall|i: int, m: NodeId|
        0 <= i < st.at && i < st.found.len() && (#[trigger] st.found[i]).1 < lim.depth
            && #[trigger] neighbors(g, center, lim, cons(st.found[i].0), st.found[i].0).contains(m)
            ==> is_found(st.found, m)
}

/// An entry is one step from an earlier one that was not too far.
spec fn came_from(
    g: GraphModel,
    center: NodeId,
    lim: Limits,
    cons: spec_fn(NodeId) -> Seq<NodeId>,
    found: Seq<(NodeId, nat)>,
    i: int,
) -> bool {
    exists|j: int|
        0 <= j < i && (#[trigger] found[j]).1 < lim.depth && found[i].1 == found[j].1 + 1
            && neighbors(g, center, lim, cons(found[j].0), found[j].0).contains(found[i].0)
}

proof fn lemma_spread(
    g: GraphModel,
    center: NodeId,
    lim: Limits,
    cons: spec_fn(NodeId) -> Seq<NodeId>,
    k: nat,
)
    ensures
        spread_inv(g, center, lim, cons, spread_after(g, center, lim, cons, k)),
    decreases k,
{
    if k > 0 {
        let st = spread_after(g, center, lim, cons, (k - 1) as nat);
        let t = spread_after(g, center, lim, cons, k);
        lemma_spread(g, center, lim, cons, (k - 1) as nat);
        if !spent(st) {
            let (n, dist) = st.found[st.at as int];
            let next = Spread { at: st.at + 1, ..st };
            let nbs = neighbors(g, center, lim, cons(n), n);
            if dist < lim.depth {
                lemma_offered(next, lim, dist, nbs, nbs.len() as int);
            }
            assert forall|i: int| 0 < i < t.found.len() implies #[trigger] came_from(
                g,
                center,
                lim,
                cons,
                t.found,
                i,
            ) by {
                if i < st.found.len() {
                    assert(came_from(g, center, lim, cons, st.found, i));
                    let j = choose|j: int|
                        0 <= j < i && (#[trigger] st.found[j]).1 < lim.depth && st.found[i].1
                            == st.found[j].1 + 1 && neighbors(
                            g,
                            center,
                            lim,
                            cons(st.found[j].0),
                            st.found[j].0,
                        ).contains(st.found[i].0);
                    assert(t.found[j] == st.found[j]);
                } else {
                    assert(t.found[st.at as int] == st.found[st.at as int]);
                }
            }
            if !t.full {
                assert forall|i: int, m: NodeId|
                    0 <= i < t.at && i < t.found.len() && (#[trigger] t.found[i]).1 < lim.depth
                        && #[trigger] neighbors(
                        g,
                        center,
                        lim,
                        cons(t.found[i].0),
                        t.found[i].0,
                    ).contains(m) implies is_found(t.found, m) by {
                    if i < st.at {
                        assert(t.found[i] == st.found[i]);
                        assert(is_found(st.found, m));
                        let x = choose|x: int|
                            0 <= x < st.found.len() && (#[trigger] st.found[x]).0 == m;
                        assert(t.found[x] == st.found[x]);
                    } else {
                        assert(t.found[i] == st.found[i]);
                        let x = nbs.index_of(m);
                        assert(is_found(t.found, nbs[x]));
                    }
                }
            }
        }
    }
}

/// A neighbourhood that is not cut short by its size is complete: of a node
/// found in fewer steps than allowed it has every node that feeds it, and every
/// reader, unless the node is a hub: not the centre, and with more readers,
/// counting its inputs or not, than the cap.
pub proof fn law_neighborhood_is_complete(
    g: GraphModel,
    center: NodeId,
    lim: Limits,
    cons: spec_fn(NodeId) -> Seq<NodeId>,
    k: nat,
    i: int,
    m: NodeId,
)
    requires
        spent(spread_after(g, center, lim, cons, k)),
        spread_after(g, center, lim, cons, k).found.len() < lim.max_nodes,
        0 <= i < spread_after(g, center, lim, cons, k).found.len(),
        spread_after(g, center, lim, cons, k).found[i].1 < lim.depth,
    ensures
        ({
            let n = spread_after(g, center, lim, cons, k).found[i].0;
            &&& neighborhood(g, center, lim, cons).contains(n)
            &&& feeds(g, n, m) ==> neighborhood(g, center, lim, cons).contains(m)
            &&& cons(n).contains(m) && n == center ==> neighborhood(g, center, lim, cons).contains(m)
            &&& cons(n).contains(m) && !lim.count_producers && cons(n).len() <= lim.hub_cap
                ==> neighborhood(g, center, lim, cons).contains(m)
            &&& cons(n).contains(m) && lim.count_producers && cons(n).len() + g.ins(n).len()
                <= lim.hub_cap ==> neighborhood(g, center, lim, cons).contains(m)
        }),
{
    let st = spread_after(g, center, lim, cons, k);
    lemma_spread(g, center, lim, cons, k);
    lemma_neighborhood_unique(g, center, lim, cons, k);
    let n = st.found[i].0;
    lemma_neighbors(g, center, lim, cons(n), n, m);
    assert(is_found(st.found, n));
    if neighbors(g, center, lim, cons(n), n).contains(m) {
        assert(is_found(st.found, m));
    }
}

/// Nothing is in a neighbourhood but its centre and what is one step farther
/// from another node of it that is not too far: a node that feeds that one, or
/// a reader of it if it is no hub.
pub proof fn law_neighborhood_holds_no_more(
    g: GraphModel,
    center: NodeId,
    lim: Limits,
    cons: spec_fn(NodeId) -> Seq<NodeId>,
    k: nat,
    i: int,
)
    requires
        spent(spread_after(g, center, lim, cons, k)),
        0 <= i < spread_after(g, center, lim, cons, k).found.len(),
    ensures
        ({
            let found = spread_after(g, center, lim, cons, k).found;
            let (m, dist) = found[i];
            &&& i == 0 ==> m == center && dist == 0
            &&& i > 0 ==> exists|j: int|
                0 <= j < i && (#[trigger] found[j]).1 < lim.depth && dist == found[j].1 + 1 && (
                feeds(g, found[j].0, m) || (cons(found[j].0).contains(m) && (found[j].0 == center
                    || cons(found[j].0).len() + (if lim.count_producers {
                    g.ins(found[j].0).len()
                } else {
                    0
                }) <= lim.hub_cap)))
        }),
{
    let st = spread_after(g, center, lim, cons, k);
    lemma_spread(g, center, lim, cons, k);
    if i > 0 {
        assert(came_from(g, center, lim, cons, st.found, i));
        let j = choose|j: int|
            0 <= j < i && (#[trigger] st.found[j]).1 < lim.depth && st.found[i].1 == st.found[j].1
                + 1 && neighbors(g, center, lim, cons(st.found[j].0), st.found[j].0).contains(
                st.found[i].0,
            );
        lemma_neighbors(g, center, lim, cons(st.found[j].0), st.found[j].0, st.found[i].0);
        assert(st.found[j].1 < lim.depth);
    }
}

/// Without steps, or with room for one node only, a neighbourhood is its centre.
pub proof fn law_smallest_neighborhood(
    g: GraphModel,
    center: NodeId,
    lim: Limits,
    cons: spec_fn(NodeId) -> Seq<NodeId>,
)
    requires
        lim.depth == 0 || lim.max_nodes <= 1,
    ensures
        forall|n: NodeId| #[trigger]
            neighborhood(g, center, lim, cons).contains(n) <==> n == center,
{
    let first = spread_after(g, center, lim, cons, 0);
    let st = spread_after(g, center, lim, cons, 1);
    assert(first.found =~= seq![(center, 0nat)]);
    assert(!spent(first) || st == first);
    let next = Spread { at: 1, ..first };
    if !spent(first) && lim.depth > 0 {
        let nbs = neighbors(g, center, lim, cons(center), center);
        lemma_enough(next, lim, 0, nbs, nbs.len() as int);
    }
    assert(st.found =~= seq![(center, 0nat)]);
    assert(spent(st));
    lemma_neighborhood_unique(g, center, lim, cons, 1);
    assert forall|n: NodeId| #[trigger]
        neighborhood(g, center, lim, cons).contains(n) <==> n == center by {
        if n == center {
            assert(st.found[0].0 == center);
        }
    }
}

proof fn lemma_enough(st: Spread, lim: Limits, dist: nat, nbs: Seq<NodeId>, k: int)
    requires
        st.found.len() >= lim.max_nodes,
    ensures
        offered(st, lim, dist, nbs, k).found == st.found,
        offered(st, lim, dist, nbs, k).at == st.at,
    decreases k,
{
    if k > 0 {
        lemma_enough(st, lim, dist, nbs, k - 1);
    }
}

/// The readers of a node are the listed nodes that it feeds.
pub proof fn law_consumers_are_readers(g: GraphModel, order: Seq<NodeId>, p: NodeId, x: NodeId)
    ensures
        consumers_in(g, order, p).contains(x) <==> order.contains(x) && feeds(g, x, p),
{
    lemma_consumers(g, order, p, order.len() as int, x);
    if consumers_in(g, order, p).contains(x) {
        let i = choose|i: int| 0 <= i < order.len() && #[trigger] order[i] == x && feeds(g, x, p);
        assert(order[i] == x);
    }
    if order.contains(x) && feeds(g, x, p) {
        let i = order.index_of(x);
        assert(order[i] == x);
    }
}

proof fn lemma_consumers(g: GraphModel, order: Seq<NodeId>, p: NodeId, k: int, x: NodeId)
    requires
        0 <= k <= order.len(),
    ensures
        consumers_upto(g, order, p, k).contains(x) <==> exists|i: int|
            0 <= i < k && #[trigger] order[i] == x && feeds(g, x, p),
    decreases k,
{
    if k > 0 {
        lemma_consumers(g, order, p, k - 1, x);
        let rest = consumers_upto(g, order, p, k - 1);
        let more = reads_of(g, order[k - 1], p, g.ins(order[k - 1]).len() as int);
        let all = consumers_upto(g, order, p, k);
        lemma_reads_of(g, order[k - 1], p, g.ins(order[k - 1]).len() as int);
        if all.contains(x) {
            let i = all.index_of(x);
            if i < rest.len() {
                assert(rest[i] == x);
                assert(rest.contains(x));
                let j = choose|j: int| 0 <= j < k - 1 && #[trigger] order[j] == x && feeds(g, x, p);
                assert(order[j] == x);
            } else {
                assert(more[i - rest.len()] == x);
                assert(order[k - 1] == x);
            }
        }
        if exists|i: int| 0 <= i < k && #[trigger] order[i] == x && feeds(g, x, p) {
            let i = choose|i: int| 0 <= i < k && #[trigger] order[i] == x && feeds(g, x, p);
            if i < k - 1 {
                assert(rest.contains(x));
                let j = rest.index_of(x);
                assert(all[j] == x);
            } else {
                assert(all[rest.len() as int] == more[0]);
            }
        }
    }
}

proof fn lemma_reads_of(g: GraphModel, n: NodeId, p: NodeId, k: int)
    requires
        0 <= k <= g.ins(n).len(),
    ensures
        forall|i: int| 0 <= i < reads_of(g, n, p, k).len() ==> #[trigger] reads_of(g, n, p, k)[i] == n,
        reads_of(g, n, p, k).len() > 0 <==> exists|i: int|
            0 <= i < k && g.producer(#[trigger] g.ins(n)[i]) == p,
    decreases k,
{
    if k > 0 {
        lemma_reads_of(g, n, p, k - 1);
        if reads_of(g, n, p, k).len() > 0 {
            if g.producer(g.ins(n)[k - 1]) != p {
                let i = choose|i: int|
                    0 <= i < k - 1 && g.producer(#[trigger] g.ins(n)[i]) == p;
                assert(g.producer(g.ins(n)[i]) == p);
            }
        }
    }
}

} // verus!
