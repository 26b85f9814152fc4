//! What can be reached, said of inputs and outputs.

use super::laws::law_readers_are_inputs;
use super::model::{kept_from, GraphModel};
use super::walk::{
    controls, feeds, lemma_closed_holds_reachable, lemma_reachable_self, lemma_reachable_step,
    reachable, steps_to,
};
use crate::node::{NodeId, ValueId, ValueKind};
use vstd::prelude::*;

verus! {

/// A node can be reached from itself. From what can be reached, so can what
/// feeds it, and whatever reads a control value of it.
pub proof fn law_reach_follows_inputs_and_control(
    g: GraphModel,
    entry: NodeId,
    a: NodeId,
    i: int,
    b: NodeId,
    j: u32,
    k: int,
)
    requires
        g.valid(),
        g.has_node(a),
        reachable(g, entry, a),
    ensures
        reachable(g, entry, entry),
        0 <= i < g.ins(a).len() ==> reachable(g, entry, g.producer(g.ins(a)[i])),
        g.has_node(b) && j < g.ins(b).len() && 0 <= k < g.outs(a).len() && g.ins(b)[j as int]
            == g.outs(a)[k] && g.value_kind(g.outs(a)[k]) == ValueKind::Control ==> reachable(
            g,
            entry,
            b,
        ),
{
    lemma_reachable_self(g, entry);
    if 0 <= i < g.ins(a).len() {
        let x = g.producer(g.ins(a)[i]);
        assert(feeds(g, a, x));
        lemma_reachable_step(g, entry, a, x);
    }
    if g.has_node(b) && j < g.ins(b).len() && 0 <= k < g.outs(a).len() && g.ins(b)[j as int]
        == g.outs(a)[k] && g.value_kind(g.outs(a)[k]) == ValueKind::Control {
        let v = g.outs(a)[k];
        assert(g.nodes[a.0 as int].outputs[k] == v && g.output_ok(a.0 as int, k));
        law_readers_are_inputs(g, v, b, j);
        let x = g.reader_positions(v).index_of((b, j));
        assert(g.reader_positions(g.outs(a)[k])[x].0 == b);
        assert(controls(g, a, b));
        lemma_reachable_step(g, entry, a, b);
    }
}

/// Nothing else can be reached: a set that has the entry, what feeds its
/// members, and what reads their control values has all that can be reached.
pub proof fn law_nothing_else_is_reached(
    g: GraphModel,
    entry: NodeId,
    members: Set<NodeId>,
    to: NodeId,
)
    requires
        g.valid(),
        members.contains(entry),
        forall|a: NodeId| #[trigger] members.contains(a) ==> g.has_node(a),
        forall|a: NodeId, i: int|
            #![trigger members.contains(a), g.ins(a)[i]]
            members.contains(a) && 0 <= i < g.ins(a).len() ==> members.contains(
                g.producer(g.ins(a)[i]),
            ),
        forall|b: NodeId, j: int|
            #![trigger g.ins(b)[j]]
            g.has_node(b) && 0 <= j < g.ins(b).len() && g.value_kind(g.ins(b)[j])
                == ValueKind::Control && members.contains(g.producer(g.ins(b)[j]))
                ==> members.contains(b),
        reachable(g, entry, to),
    ensures
        members.contains(to),
{
    assert forall|a: NodeId, b: NodeId| members.contains(a) && #[trigger] steps_to(
        g,
        a,
        b,
    ) implies members.contains(b) by {
        if feeds(g, a, b) {
            let i = choose|i: int|
                0 <= i < g.ins(a).len() && g.producer(#[trigger] g.ins(a)[i]) == b;
            assert(members.contains(a) && g.ins(a)[i] == g.ins(a)[i]);
        } else {
            let (i, j) = choose|i: int, j: int|
                #![trigger g.reader_positions(g.outs(a)[i])[j]]
                0 <= i < g.outs(a).len() && g.value_kind(g.outs(a)[i]) == ValueKind::Control && 0
                    <= j < g.reader_positions(g.outs(a)[i]).len() && g.reader_positions(
                    g.outs(a)[i],
                )[j].0 == b;
            let v = g.outs(a)[i];
            let (m, x) = g.reader_positions(v)[j];
            assert(g.nodes[a.0 as int].outputs[i] == v && g.output_ok(a.0 as int, i));
            assert(g.reader_positions(v).contains((m, x)));
            law_readers_are_inputs(g, v, m, x);
            assert(g.ins(b)[x as int] == v);
        }
    }
    lemma_closed_holds_reachable(g, entry, to, members);
}

/// Whether a position is listed.
pub open spec fn is_listed(listed: Seq<usize>, p: int) -> bool {
    exists|k: int| 0 <= k < listed.len() && #[trigger] listed[k] == p
}

/// `at` has the positions of `s` from `p` on that are not listed, in order.
pub open spec fn unlisted_places(s: Seq<ValueId>, listed: Seq<usize>, p: int, at: Seq<int>) -> bool {
    &&& forall|i: int|
        0 <= i < at.len() ==> p <= #[trigger] at[i] < s.len() && !is_listed(listed, at[i])
    &&& forall|i: int, j: int| 0 <= i < j < at.len() ==> at[i] < at[j]
    &&& forall|x: int| p <= x < s.len() && !#[trigger] is_listed(listed, x) ==> at.contains(x)
}

/// What is left after the listed positions are taken out is what stood at all
/// the others, in order.
pub proof fn law_only_listed_inputs_go(s: Seq<ValueId>, listed: Seq<usize>, p: int) -> (at: Seq<int>)
    requires
        0 <= p,
    ensures
        unlisted_places(s, listed, p, at),
        kept_from(s, listed, p).len() == at.len(),
        forall|i: int| 0 <= i < at.len() ==> kept_from(s, listed, p)[i] == s[#[trigger] at[i]],
    decreases s.len() - p,
{
    if p >= s.len() {
        Seq::empty()
    } else {
        let rest = law_only_listed_inputs_go(s, listed, p + 1);
        if is_listed(listed, p) {
            assert forall|x: int| p <= x < s.len() && !#[trigger] is_listed(
                listed,
                x,
            ) implies rest.contains(x) by {
                assert(x != p);
            }
            rest
        } else {
            let at = seq![p] + rest;
            assert forall|i: int| 0 <= i < at.len() implies p <= #[trigger] at[i] < s.len()
                && !is_listed(listed, at[i]) && kept_from(s, listed, p)[i] == s[at[i]] by {
                if i > 0 {
                    assert(at[i] == rest[i - 1]);
                }
            }
            assert forall|i: int, j: int| 0 <= i < j < at.len() implies at[i] < at[j] by {
                assert(at[j] == rest[j - 1]);
                if i > 0 {
                    assert(at[i] == rest[i - 1]);
                }
            }
            assert forall|x: int| p <= x < s.len() && !#[trigger] is_listed(
                listed,
                x,
            ) implies at.contains(x) by {
                if x == p {
                    assert(at[0] == x);
                } else {
                    assert(rest.contains(x));
                    let y = rest.index_of(x);
                    assert(at[y + 1] == x);
                }
            }
            at
        }
    }
}

} // verus!
