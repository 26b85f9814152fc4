//! What the edges and boxes of drawings say, and where edges lead.

use super::args::{arg_tags, tag_label, tags_among, tags_below, tags_label, ArgTag};
use super::emitter::StmtModel;
use super::function_dot::{
    box_attrs, box_label, branch_edge, branch_label, declares, edge_attrs, edge_label, with_box, with_edge, with_source, Plan,
    Scene,
};
use super::graph_dot::GraphPlan;
use super::label::{label_text, Dialect};
use super::raw::{raw_edge, raw_id};
use super::style::{fill_text, role_text, shape_text, slot_role, SlotRole};
use crate::fmt::dec;
use crate::function::func::Function;
use crate::function::side_tables::ArgClass;
use crate::node::{NodeId, ValueId, ValueKind};
use vstd::prelude::*;

verus! {

/// What an edge into a call says: control, memory, target, stack pointer, and
/// then the arguments from zero. Those of a user operation come right after
/// memory.
pub proof fn law_call_edges(p: &Plan, n: NodeId, k: int)
    requires
        0 <= k,
    ensures
        p.f.g().kind(n) is Call ==> {
            &&& edge_label(p, n, 0) == "ctrl"@
            &&& edge_label(p, n, 1) == "mem"@
            &&& edge_label(p, n, 2) == "target"@
            &&& edge_label(p, n, 3) == "sp"@
            &&& edge_label(p, n, k + 4) == "arg"@ + dec(k as nat)
        },
        p.f.g().kind(n) is CallOther ==> {
            &&& edge_label(p, n, 0) == "ctrl"@
            &&& edge_label(p, n, 1) == "mem"@
            &&& edge_label(p, n, k + 2) == "arg"@ + dec(k as nat)
        },
        p.f.g().kind(n) is CPoolRef || p.f.g().kind(n) is New ==> edge_label(p, n, k) == "ref"@
            + dec(k as nat),
{
}

/// What an edge into a region or a phi says: the predecessor it belongs to.
pub proof fn law_region_and_phi_edges(p: &Plan, n: NodeId, k: int)
    requires
        0 <= k,
    ensures
        p.f.g().kind(n) is Region ==> edge_label(p, n, k) == "pred"@ + dec(k as nat),
        p.f.g().kind(n) is Phi || p.f.g().kind(n) is MemPhi ==> edge_label(p, n, 0) == "phi"@
            && edge_label(p, n, k + 1) == "pred"@ + dec(k as nat),
{
}

/// What an edge into a return says: control, memory, and then the registers
/// that values are returned in, the integer ones before the float ones.
pub proof fn law_return_edges(p: &Plan, n: NodeId, k: int)
    requires
        0 <= k,
        p.f.g().kind(n) is Return,
    ensures
        edge_label(p, n, 0) == "ctrl"@,
        edge_label(p, n, 1) == "mem"@,
        ({
            let ints = p.f.cc_default().ret_val_regs@;
            let floats = p.f.cc_default().ret_val_regs_float@;
            &&& k < ints.len() ==> edge_label(p, n, k + 2) == p.names.vn_name(ints[k])
            &&& ints.len() <= k < ints.len() + floats.len() ==> edge_label(p, n, k + 2)
                == p.names.vn_name(floats[k - ints.len()])
            &&& ints.len() + floats.len() <= k ==> edge_label(p, n, k + 2) == "ret"@
        }),
{
}

/// What the edges into all other nodes say.
pub proof fn law_plain_edges(p: &Plan, n: NodeId)
    ensures
        ({
            let kind = p.f.g().kind(n);
            &&& kind is If ==> edge_label(p, n, 0) == "ctrl"@ && edge_label(p, n, 1) == "cond"@
            &&& kind is Switch ==> edge_label(p, n, 0) == "ctrl"@ && edge_label(p, n, 1) == "val"@
            &&& kind is IndirectBranch ==> edge_label(p, n, 0) == "ctrl"@ && edge_label(p, n, 1)
                == "mem"@ && edge_label(p, n, 2) == "target"@
            &&& kind is Load ==> edge_label(p, n, 0) == "mem"@ && edge_label(p, n, 1) == "addr"@
            &&& kind is Store ==> edge_label(p, n, 0) == "mem"@ && edge_label(p, n, 1) == "addr"@
                && edge_label(p, n, 2) == "data"@
            &&& kind is IntBinaryOp || kind is IntCmpOp || kind is BoolBinaryOp || kind
                is FloatBinaryOp || kind is FloatCmpOp ==> edge_label(p, n, 0) == "lhs"@
                && edge_label(p, n, 1) == "rhs"@
            &&& kind is IntUnaryOp || kind is BoolUnaryOp || kind is FloatUnaryOp || kind
                is Truncate || kind is Popcount || kind is Lzcount || kind is Extend || kind
                is CastToBool || kind is CastToInt || kind is CastToFloat || kind is IntToFloat
                || kind is FloatToInt || kind is FloatToFloat || kind is IntBitsToFloat || kind
                is FloatBitsToInt ==> edge_label(p, n, 0) == "val"@
            &&& kind is SegmentOp ==> edge_label(p, n, 0) == "seg"@ && edge_label(p, n, 1)
                == "off"@
        }),
{
}

/// What the edges of a graph drawing say where they differ: the arguments of a
/// call count from its fourth input, and a memory state of one partition names
/// it.
pub proof fn law_graph_edges(p: &GraphPlan, n: NodeId, k: int)
    requires
        0 <= k,
    ensures
        p.f.g().kind(n) is Call ==> super::graph_dot::edge_label(p, n, k + 3) == "arg"@ + dec(
            k as nat,
        ),
        p.f.g().kind(n) is CallOther ==> super::graph_dot::edge_label(p, n, k + 2) == "arg"@ + dec(
            k as nat,
        ),
        p.f.g().kind(n) is CPoolRef || p.f.g().kind(n) is New ==> super::graph_dot::edge_label(
            p,
            n,
            k,
        ) == "ref"@ + dec(k as nat),
        p.f.g().kind(n) is Return && k < p.returned.len() ==> super::graph_dot::edge_label(p, n, k + 2)
            == p.names.vn_name(p.returned[k]),
        p.f.g().kind(n) is Load || p.f.g().kind(n) is Store ==> (p.f.g().value_kind(
            p.f.g().ins(n)[0],
        ) matches ValueKind::MemoryPart(class) ==> super::graph_dot::edge_label(p, n, 0) == "mem:"@
            + class.name()),
        p.f.g().kind(n) is Load || p.f.g().kind(n) is Store ==> (p.f.g().value_kind(
            p.f.g().ins(n)[0],
        ) is Memory ==> super::graph_dot::edge_label(p, n, 0) == "mem"@),
{
}

/// An edge into an input leads from the box of what produces its value to the
/// box of the node, in the colour of the input's role and with its label. So it
/// is for every value that has no box of its own.
pub proof fn law_edges_lead_from_producer_to_reader(
    p: &Plan,
    sc: Scene,
    n: NodeId,
    id: Seq<char>,
    idx: int,
)
    requires
        ({
            let v = p.f.g().ins(n)[idx];
            let parent = p.f.g().producer(v);
            &&& !sc.virtuals.contains_key(v)
            &&& !(p.f.g().kind(parent) is Call) && !(p.f.g().kind(parent) is If)
            &&& !(p.f.g().kind(parent) is IntConst) && !(p.f.g().kind(parent) is FloatConst)
                && !(p.f.g().kind(parent) is BoolConst)
            &&& p.nodes matches Some(set) ==> set.contains(parent)
        }),
    ensures
        ({
            let parent = p.f.g().producer(p.f.g().ins(n)[idx]);
            let t = with_edge(p, sc, n, id, idx);
            t.stmts == sc.stmts.push(
                StmtModel::Edge {
                    from: dec(parent.0 as nat),
                    to: id,
                    attrs: edge_attrs(
                        match slot_role(p.f.g().kind(n), idx) {
                            Some(role) => role_text(role),
                            None => "\"#cccccc\""@,
                        },
                        edge_label(p, n, idx),
                    ),
                },
            )
        }),
{
}

/// No edge leads to a node from one that is not in view.
pub proof fn law_edges_from_out_of_view_are_left_out(
    p: &Plan,
    sc: Scene,
    n: NodeId,
    id: Seq<char>,
    idx: int,
)
    requires
        p.nodes matches Some(set) && !set.contains(p.f.g().producer(p.f.g().ins(n)[idx])),
    ensures
        with_edge(p, sc, n, id, idx) == sc,
{
}

/// A constant that is not what the drawing is about is drawn beside each of its
/// readers: the edge leaves a box of its own, which is declared next.
pub proof fn law_constants_are_drawn_beside_their_readers(
    p: &Plan,
    sc: Scene,
    n: NodeId,
    id: Seq<char>,
    idx: int,
)
    requires
        ({
            let v = p.f.g().ins(n)[idx];
            let parent = p.f.g().producer(v);
            &&& !sc.virtuals.contains_key(v)
            &&& p.f.g().kind(parent) is IntConst || p.f.g().kind(parent) is FloatConst
                || p.f.g().kind(parent) is BoolConst
            &&& p.center != Some(parent)
            &&& p.nodes matches Some(set) ==> set.contains(parent)
        }),
    ensures
        ({
            let parent = p.f.g().producer(p.f.g().ins(n)[idx]);
            let t = with_edge(p, sc, n, id, idx);
            &&& t.stmts.len() == sc.stmts.len() + 2
            &&& t.stmts[sc.stmts.len() as int] matches StmtModel::Edge { from, to, .. } && from
                == "c"@ + dec(sc.next) && to == id
            &&& t.stmts[(sc.stmts.len() + 1) as int] matches StmtModel::Node { id: x, attrs } && x == "c"@
                + dec(sc.next) && attrs[0] == (
                "label"@,
                label_text(Dialect::Function, &p.f, &p.names, parent),
            ) && attrs[1] == ("shape"@, "ellipse"@)
            &&& t.next == sc.next + 1
        }),
{
}

/// The result of a call past control and memory has a box of its own, with an
/// edge from the call and labelled with what the result is kept in.
pub proof fn law_call_results_have_boxes(p: &Plan, sc: Scene, v: ValueId)
    requires
        !sc.virtuals.contains_key(v),
        p.f.g().kind(p.f.g().producer(v)) is Call,
        p.f.g().values[v.0 as int].index >= 2,
        p.f.vn_for(v) is Some,
    ensures
        ({
            let (t, from) = with_source(p, sc, v);
            &&& from == "v"@ + dec(sc.next)
            &&& t.stmts.len() == sc.stmts.len() + 2
            &&& t.stmts[sc.stmts.len() as int] matches StmtModel::Node { id, attrs } && id == from
                && attrs[0] == ("label"@, "Post Call\n"@ + p.names.vn_name(p.f.vn_for(v)->0))
            &&& t.stmts[(sc.stmts.len() + 1) as int] matches StmtModel::Edge { from: a, to: b, .. } && a
                == dec(p.f.g().producer(v).0 as nat) && b == from
        }),
{
    assert(!p.f.g().kind(p.f.g().producer(v)).constant());
}

/// A branch of an `If` is read from its box: the first output is the one taken
/// if the condition holds.
pub proof fn law_branches_have_boxes(p: &Plan, sc: Scene, v: ValueId)
    requires
        !sc.virtuals.contains_key(v),
        p.f.g().kind(p.f.g().producer(v)) is If,
    ensures
        ({
            let (t, from) = with_source(p, sc, v);
            &&& from == "v"@ + dec(sc.next)
            &&& t.stmts.len() == sc.stmts.len() + 1
            &&& t.stmts.last() matches StmtModel::Node { id, attrs } && id == from && attrs[0] == (
                "label"@,
                if p.f.g().values[v.0 as int].index == 0 {
                    "if.true"@
                } else {
                    "if.false"@
                },
            )
        }),
{
}

/// A box has the number of its node, its label, the arguments it carries before
/// it, its outline and its fill; carriers of arguments have two borders, and
/// what the drawing is about stands out.
pub proof fn law_boxes(p: &Plan, sc: Scene, n: NodeId)
    requires
        !(p.f.g().kind(n) is IntConst) && !(p.f.g().kind(n) is FloatConst) && !(p.f.g().kind(n)
            is BoolConst) || p.center == Some(n),
    ensures
        ({
            let t = with_box(p, sc, n);
            let look = box_attrs(p, n);
            &&& t.stmts.len() == sc.stmts.len() + 1
            &&& t.stmts.last() == (StmtModel::Node {
                id: dec(n.0 as nat),
                attrs: seq![
                    ("label"@, box_label(p, n)),
                    ("shape"@, shape_text(p.f.g().kind(n))),
                ] + look,
            })
            &&& look[0] == ("fillcolor"@, fill_text(p.f.g().kind(n)))
            &&& look.contains(("peripheries"@, "2"@)) || arg_tags(&p.f, n).len() == 0
            &&& p.center == Some(n) ==> look.contains(("color"@, "\"#ffcc00\""@))
            &&& p.center != Some(n) && arg_tags(&p.f, n).len() == 0 ==> look.len() == 1
            &&& arg_tags(&p.f, n).len() == 0 ==> box_label(p, n) == label_text(
                Dialect::Function,
                &p.f,
                &p.names,
                n,
            )
            &&& arg_tags(&p.f, n).len() == 1 ==> box_label(p, n) == tag_label(arg_tags(&p.f, n)[0])
                + "\n"@ + label_text(Dialect::Function, &p.f, &p.names, n)
        }),
{
    let look = box_attrs(p, n);
    if arg_tags(&p.f, n).len() > 0 {
        assert(look[1] == ("peripheries"@, "2"@));
        if p.center == Some(n) {
            assert(look[2] == ("color"@, "\"#ffcc00\""@));
        }
    } else if p.center == Some(n) {
        assert(look[1] == ("color"@, "\"#ffcc00\""@));
    }
    assert(with_box(p, sc, n).stmts.last() == (StmtModel::Node {
        id: dec(n.0 as nat),
        attrs: seq![("label"@, box_label(p, n)), ("shape"@, shape_text(p.f.g().kind(n)))] + look,
    }));
}

/// How the arguments that a node carries are written: float ones say so.
pub proof fn law_argument_tags(index: u32)
    ensures
        tag_label(ArgTag { float: false, index }) == "[arg "@ + dec(index as nat) + "]"@,
        tag_label(ArgTag { float: true, index }) == "[float arg "@ + dec(index as nat) + "]"@,
{
}

/// A node is tagged with an argument once for each of its values that carry it.
pub proof fn law_tags_come_from_carriers(
    f: &Function,
    n: NodeId,
    tag: ArgTag,
    vs: Seq<ValueId>,
    j: int,
)
    requires
        0 <= j <= vs.len(),
    ensures
        tags_among(f, n, tag, vs, j).len() > 0 <==> exists|i: int|
            0 <= i < j && f.g().has_value(#[trigger] vs[i]) && f.g().producer(vs[i]) == n,
        forall|i: int|
            0 <= i < tags_among(f, n, tag, vs, j).len() ==> #[trigger] tags_among(
                f,
                n,
                tag,
                vs,
                j,
            )[i] == tag,
    decreases j,
{
    if j > 0 {
        law_tags_come_from_carriers(f, n, tag, vs, j - 1);
        if f.g().has_value(vs[j - 1]) && f.g().producer(vs[j - 1]) == n {
            assert(f.g().has_value(vs[j - 1]));
        } else if tags_among(f, n, tag, vs, j).len() > 0 {
            let i = choose|i: int|
                0 <= i < j - 1 && f.g().has_value(#[trigger] vs[i]) && f.g().producer(vs[i]) == n;
            assert(f.g().has_value(vs[i]));
        }
    }
}

/// A raw edge leads from the producer of a value to the node that reads it, and
/// says which output feeds which input.
pub proof fn law_raw_edges(f: &Function, n: NodeId, i: int)
    ensures
        raw_edge(f, n, i) == (StmtModel::Edge {
            from: "n"@ + dec(f.g().producer(f.g().ins(n)[i]).0 as nat),
            to: "n"@ + dec(n.0 as nat),
            attrs: seq![
                (
                    "label"@,
                    dec(f.g().values[f.g().ins(n)[i].0 as int].index as nat) + ":"@ + dec(i as nat),
                ),
            ],
        }),
        raw_id(n) == "n"@ + dec(n.0 as nat),
{
}

/// The colour and the label of an edge, where it has one.
pub proof fn law_edge_attributes(color: Seq<char>, label: Seq<char>)
    ensures
        edge_attrs(color, label)[0] == ("color"@, color),
        label.len() == 0 ==> edge_attrs(color, label).len() == 1,
        label.len() > 0 ==> edge_attrs(color, label)[1] == ("label"@, label),
{
}

/// Constants that the drawing is not about, and initial values that nothing
/// reads, have no box of their own; every other node has.
pub proof fn law_which_nodes_have_boxes(p: &Plan, n: NodeId)
    ensures
        declares(p, n) <==> !((p.f.g().kind(n) is IntConst || p.f.g().kind(n) is FloatConst
            || p.f.g().kind(n) is BoolConst) && p.center != Some(n)) && !(p.f.g().kind(
            n,
        ) is InitialVar && p.f.g().outs(n).len() == 1 && p.f.g().readers(p.f.g().outs(n)[0]).len()
            == 0),
{
}

proof fn lemma_tags_below(f: &Function, n: NodeId, float: bool, k: nat, tag: ArgTag)
    requires
        k <= 0x1_0000_0000,
    ensures
        tags_below(f, n, float, k).contains(tag) <==> tag.float == float && tag.index < k && exists|
            i: int,
        |
            0 <= i < carriers_of(f, tag).len() && f.g().has_value(#[trigger] carriers_of(f, tag)[i])
                && f.g().producer(carriers_of(f, tag)[i]) == n,
    decreases k,
{
    if k > 0 {
        lemma_tags_below(f, n, float, (k - 1) as nat, tag);
        let last = ArgTag { float, index: (k - 1) as u32 };
        let vs = carriers_of(f, last);
        law_tags_come_from_carriers(f, n, last, vs, vs.len() as int);
        let rest = tags_below(f, n, float, (k - 1) as nat);
        let more = tags_among(f, n, last, vs, vs.len() as int);
        let all = tags_below(f, n, float, k);
        assert(all == rest + more);
        if all.contains(tag) {
            let x = all.index_of(tag);
            if x < rest.len() {
                assert(rest[x] == tag);
                assert(rest.contains(tag));
            } else {
                assert(more[x - rest.len()] == tag);
                assert(tag == last);
            }
        }
        if rest.contains(tag) {
            let x = rest.index_of(tag);
            assert(all[x] == tag);
        }
        if tag == last && more.len() > 0 {
            assert(all[rest.len() as int] == more[0]);
        }
        if tag.float == float && tag.index == k - 1 {
            assert(tag == last);
        }
    }
}

/// The values that carry an argument.
pub open spec fn carriers_of(f: &Function, tag: ArgTag) -> Seq<ValueId> {
    f.tables().carriers(
        if tag.float {
            ArgClass::Float
        } else {
            ArgClass::Integer
        },
        tag.index,
    )
}

/// A node is tagged with exactly the arguments that one of its values carries.
pub proof fn law_nodes_are_tagged_with_what_they_carry(f: &Function, n: NodeId, tag: ArgTag)
    ensures
        arg_tags(f, n).contains(tag) <==> exists|i: int|
            0 <= i < carriers_of(f, tag).len() && f.g().has_value(#[trigger] carriers_of(f, tag)[i])
                && f.g().producer(carriers_of(f, tag)[i]) == n,
{
    lemma_tags_below(f, n, false, 0x1_0000_0000, tag);
    lemma_tags_below(f, n, true, 0x1_0000_0000, tag);
    let ints = tags_below(f, n, false, 0x1_0000_0000);
    let floats = tags_below(f, n, true, 0x1_0000_0000);
    let all = arg_tags(f, n);
    assert(all == ints + floats);
    if all.contains(tag) {
        let x = all.index_of(tag);
        if x < ints.len() {
            assert(ints[x] == tag);
        } else {
            assert(floats[x - ints.len()] == tag);
        }
    }
    if ints.contains(tag) {
        let x = ints.index_of(tag);
        assert(all[x] == tag);
    }
    if floats.contains(tag) {
        let x = floats.index_of(tag);
        assert(all[ints.len() + x] == tag);
    }
}

/// Several tags come in order with commas between them.
pub proof fn law_tags_are_joined(a: ArgTag, b: ArgTag)
    ensures
        tags_label(seq![a], 1) == tag_label(a),
        tags_label(seq![a, b], 2) == tag_label(a) + ", "@ + tag_label(b),
{
    reveal_with_fuel(tags_label, 3);
}

/// The edges to the boxes of branches, and what the boxes are called.
pub proof fn law_branch_edges(label: Seq<char>)
    ensures
        branch_label(0) == "if.true"@,
        branch_label(1) == "if.false"@,
        branch_edge(label)[0] == ("color"@, role_text(SlotRole::Control)),
        branch_edge(label)[1] == ("label"@, label),
{
}

} // verus!
