//! What the edges and boxes of a drawing of a graph say, and where edges lead.

use super::emitter::StmtModel;
use super::function_dot::edge_attrs;
use super::graph_dot::{
    edge_label, result_name, role_look, with_box, with_edge, with_node, with_source, GraphPlan,
    GraphScene,
};
use super::label::{label_text, offsets_joined, signed_text, Dialect};
use super::style::{fill_text, role_text, shape_text, slot_role, SlotRole};
use crate::fmt::dec;
use crate::node::{NodeId, NodeKind, ValueId};
use vstd::prelude::*;

verus! {

/// The colour of an edge is that of its input's role, but that arguments and
/// the stack pointer of a call count as arguments, and the base of a stack
/// store as an address.
pub proof fn law_graph_edge_colours(kind: NodeKind, i: int)
    requires
        0 <= i,
    ensures
        kind is Call && i >= 3 ==> role_look(kind, i) == ("arg"@, role_text(SlotRole::Arg)),
        (kind is StackStore || kind is StackStorePhi) && i == 1 ==> role_look(kind, i) == (
            "sp"@,
            role_text(SlotRole::Addr),
        ),
        !(kind is Call && i >= 3) && !((kind is StackStore || kind is StackStorePhi) && i == 1) ==> (
        slot_role(kind, i) matches Some(role) ==> role_look(kind, i).1 == role_text(role)),
{
}

/// An edge into an input leads from the box of what produces its value to the
/// box of the node.
pub proof fn law_graph_edges_lead_from_producer_to_reader(
    p: &GraphPlan,
    sc: GraphScene,
    n: NodeId,
    id: Seq<char>,
    idx: int,
)
    requires
        ({
            let v = p.f.g().ins(n)[idx];
            let parent = p.f.g().producer(v);
            &&& !sc.virtuals.contains_key(v)
            &&& !(p.f.g().kind(parent) is Call) && !(p.f.g().kind(parent) is If)
            &&& !(p.f.g().kind(parent) is IntConst) && !(p.f.g().kind(parent) is FloatConst)
                && !(p.f.g().kind(parent) is BoolConst)
            &&& sc.numbers.contains_key(parent)
            &&& p.filter matches Some(set) ==> set.contains(parent)
            &&& idx != 1 || !(p.f.g().kind(n) is Load || p.f.g().kind(n) is Store) || p.f.sp_offset(n)
                is None
        }),
    ensures
        ({
            let parent = p.f.g().producer(p.f.g().ins(n)[idx]);
            with_edge(p, sc, n, id, idx).stmts == sc.stmts.push(
                StmtModel::Edge {
                    from: dec(sc.numbers[parent] as nat),
                    to: id,
                    attrs: edge_attrs(role_look(p.f.g().kind(n), idx).1, edge_label(p, n, idx)),
                },
            )
        }),
{
}

/// The edge from the address of a load or store is left out where the label
/// says the place, and so is every edge from what the filter leaves out.
pub proof fn law_superfluous_edges_are_left_out(
    p: &GraphPlan,
    sc: GraphScene,
    n: NodeId,
    id: Seq<char>,
    idx: int,
)
    requires
        (idx == 1 && (p.f.g().kind(n) is Load || p.f.g().kind(n) is Store) && p.f.sp_offset(n)
            is Some) || ({
            let parent = p.f.g().producer(p.f.g().ins(n)[idx]);
            &&& p.filter matches Some(set) && !set.contains(parent)
            &&& !(p.f.g().kind(parent) is IntConst) && !(p.f.g().kind(parent) is FloatConst)
                && !(p.f.g().kind(parent) is BoolConst)
        }),
    ensures
        with_edge(p, sc, n, id, idx) == sc,
{
}

/// A node gets a number when it first comes up and keeps it: its box has that
/// number, its label, its outline and its fill.
pub proof fn law_graph_boxes(p: &GraphPlan, sc: GraphScene, n: NodeId)
    requires
        !(p.f.g().kind(n) is IntConst) && !(p.f.g().kind(n) is FloatConst) && !(p.f.g().kind(n)
            is BoolConst),
        super::args::arg_tags(&p.f, n).len() == 0,
    ensures
        ({
            let (t, id) = with_box(p, sc, n);
            &&& sc.numbers.contains_key(n) ==> id == dec(sc.numbers[n] as nat) && t.next == sc.next
            &&& !sc.numbers.contains_key(n) ==> id == dec(sc.next) && t.next == sc.next + 1
                && t.numbers.contains_key(n)
            &&& t.stmts == sc.stmts.push(
                StmtModel::Node {
                    id,
                    attrs: seq![
                        ("label"@, label_text(Dialect::Graph, &p.f, &p.names, n)),
                        ("shape"@, shape_text(p.f.g().kind(n))),
                    ] + seq![("fillcolor"@, fill_text(p.f.g().kind(n)))],
                },
            )
        }),
{
}

/// Constants, initial values that nothing reads, and what the filter leaves out
/// have no box of their own.
pub proof fn law_undrawn_nodes(p: &GraphPlan, sc: GraphScene, n: NodeId)
    requires
        p.f.g().kind(n) is IntConst || p.f.g().kind(n) is FloatConst || p.f.g().kind(n) is BoolConst
            || (p.f.g().kind(n) is InitialVar && p.f.g().outs(n).len() == 1 && p.f.g().readers(
            p.f.g().outs(n)[0],
        ).len() == 0) || (p.filter matches Some(set) && !set.contains(n)),
    ensures
        with_node(p, sc, n) == sc,
{
}

/// The results of a call past control and memory are called by the registers
/// that it overwrites, in order.
pub proof fn law_graph_result_names(p: &GraphPlan, v: ValueId, k: int)
    requires
        0 <= k,
        p.f.g().values[v.0 as int].index == k + 2,
    ensures
        k < p.clobbered.len() ==> result_name(p, v) == p.names.vn_name(p.clobbered[k]),
        k >= p.clobbered.len() ==> result_name(p, v) == "clob"@ + dec(k as nat),
{
}

/// A result of a call has a box of its own, fed from the call.
pub proof fn law_graph_call_results_have_boxes(p: &GraphPlan, sc: GraphScene, v: ValueId)
    requires
        !sc.virtuals.contains_key(v),
        p.f.g().kind(p.f.g().producer(v)) is Call,
        p.f.g().values[v.0 as int].index >= 2,
        sc.numbers.contains_key(p.f.g().producer(v)),
    ensures
        ({
            let (t, from) = with_source(p, sc, v);
            &&& from == "v"@ + dec(sc.next)
            &&& t.stmts.len() == sc.stmts.len() + 2
            &&& t.stmts[sc.stmts.len() as int] matches StmtModel::Node { id, attrs } && id == from
                && attrs[0] == ("label"@, "Post Call\n"@ + result_name(p, v))
            &&& t.stmts[(sc.stmts.len() + 1) as int] matches StmtModel::Edge { from: a, to: b, .. }
                && a == dec(sc.numbers[p.f.g().producer(v)] as nat) && b == from
        }),
{
    assert(!p.f.g().kind(p.f.g().producer(v)).constant());
}

/// Offsets from the stack pointer show their sign, and come in order with
/// commas between them.
pub proof fn law_stack_offsets(a: i64, b: i64, o: int)
    ensures
        o >= 0 ==> signed_text(o) == " + "@ + dec(o as nat),
        o < 0 ==> signed_text(o) == " - "@ + dec((-o) as nat),
        offsets_joined(seq![a], 1) == "sp"@ + signed_text(a as int),
        offsets_joined(seq![a, b], 2) == "sp"@ + signed_text(a as int) + ", sp"@ + signed_text(
            b as int,
        ),
{
    reveal_with_fuel(offsets_joined, 3);
}

} // verus!
