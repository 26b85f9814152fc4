//! Phis print right behind the region they belong to.

use super::alike::lemma_sched_ends;
use super::order::{deferred, known, scheduled, Sched};
use super::orderer::{attached, attached_upto, belongs, moves, phis_of, print_order};
use crate::graph::model::GraphModel;
use crate::node::NodeId;
use vstd::prelude::*;

verus! {

/// A phi over a region: its first input is a value of the region.
pub open spec fn phi_over(g: GraphModel, n: NodeId, region: NodeId) -> bool {
    &&& g.kind(n) is Phi || g.kind(n) is MemPhi
    &&& g.ins(n).len() > 0
    &&& g.producer(g.ins(n)[0]) == region
    &&& g.kind(region) is Region
}

proof fn lemma_phis_of(g: GraphModel, seq: Seq<NodeId>, region: NodeId, n: NodeId)
    requires
        g.kind(region) is Region,
    ensures
        phis_of(g, seq, region).contains(n) <==> seq.contains(n) && phi_over(g, n, region),
        forall|i: int|
            0 <= i < phis_of(g, seq, region).len() ==> phi_over(
                g,
                #[trigger] phis_of(g, seq, region)[i],
                region,
            ),
    decreases seq.len(),
{
    if seq.len() > 0 {
        let front = seq.drop_last();
        lemma_phis_of(g, front, region, n);
        assert(seq =~= front.push(seq.last()));
        crate::entity_set::lemma_push_member(front, seq.last(), n);
        assert(belongs(g, seq.last(), region) <==> phi_over(g, seq.last(), region));
        if belongs(g, seq.last(), region) {
            crate::entity_set::lemma_push_member(phis_of(g, front, region), seq.last(), n);
        }
    }
}

proof fn lemma_attached_grows(g: GraphModel, seq: Seq<NodeId>, a: int, b: int)
    requires
        0 <= a <= b <= seq.len(),
    ensures
        attached_upto(g, seq, a).len() <= attached_upto(g, seq, b).len(),
        forall|x: int|
            0 <= x < attached_upto(g, seq, a).len() ==> #[trigger] attached_upto(g, seq, b)[x]
                == attached_upto(g, seq, a)[x],
    decreases b - a,
{
    if a < b {
        lemma_attached_grows(g, seq, a, b - 1);
    }
}

/// Between a region and a phi over it nothing prints but phis over it.
pub proof fn law_phis_print_behind_their_region(
    g: GraphModel,
    entry: NodeId,
    region: NodeId,
    phi: NodeId,
)
    requires
        g.valid(),
        g.has_node(entry),
        phi_over(g, phi, region),
        print_order(g, entry).contains(region),
        print_order(g, entry).contains(phi),
    ensures
        exists|x: int, y: int|
            #![trigger print_order(g, entry)[x], print_order(g, entry)[y]]
            {
                &&& 0 <= x < y < print_order(g, entry).len()
                &&& print_order(g, entry)[x] == region
                &&& print_order(g, entry)[y] == phi
                &&& forall|z: int| x < z < y ==> phi_over(g, #[trigger] print_order(g, entry)[z], region)
            },
{
    let end = lemma_sched_ends(g, entry);
    super::alike::law_print_order_reachable(g, entry);
    let seq = scheduled(g, entry);
    assert(known(g, entry, region) && known(g, entry, phi));
    assert(seq.contains(region) && seq.contains(phi));
    let k = seq.index_of(region);
    let before = attached_upto(g, seq, k);
    let phis = phis_of(g, seq, region);
    let upto = attached_upto(g, seq, k + 1);
    assert(!moves(g, seq, region));
    assert(upto == before.push(region) + phis);
    lemma_phis_of(g, seq, region, phi);
    let j = phis.index_of(phi);
    let x = before.len() as int;
    let y = x + 1 + j;
    lemma_attached_grows(g, seq, k + 1, seq.len() as int);
    let order = print_order(g, entry);
    assert(order == attached(g, seq));
    assert(upto[x] == region && upto[y] == phi);
    assert(order[x] == upto[x] && order[y] == upto[y]);
    assert forall|z: int| x < z < y implies phi_over(g, #[trigger] order[z], region) by {
        assert(order[z] == upto[z]);
        assert(upto[z] == phis[z - x - 1]);
    }
}

/// What a phi takes from a predecessor stands with that predecessor: the
/// operand behind the token by one more than the predecessor's place in the
/// region goes to the block of what leads there, at once if that is placed
/// already and as soon as it is otherwise.
pub proof fn law_phi_operand_goes_with_its_predecessor(
    g: GraphModel,
    rpo: Seq<NodeId>,
    s: Sched,
    phi: NodeId,
    region: NodeId,
    k: int,
)
    requires
        phi_over(g, phi, region),
        0 <= k < g.ins(region).len(),
        k + 1 < g.ins(phi).len(),
        !s.visited.contains(g.producer(g.ins(phi)[k + 1])),
        !rpo.contains(g.producer(g.ins(phi)[k + 1])),
        rpo.contains(g.producer(g.ins(region)[k])),
        !s.sealed,
    ensures
        ({
            let operand = g.producer(g.ins(phi)[k + 1]);
            let pred = g.producer(g.ins(region)[k]);
            let before = deferred(g, rpo, s, phi, k + 1);
            let after = deferred(g, rpo, s, phi, k + 2);
            &&& s.visited.contains(pred) ==> after.jobs == before.jobs.push((operand, Some(pred)))
                && after.waiting == before.waiting
            &&& !s.visited.contains(pred) ==> after.waiting == before.waiting.push((pred, operand))
                && after.jobs == before.jobs
            &&& after.here == before.here
        }),
{
}

} // verus!
