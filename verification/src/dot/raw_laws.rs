//! What a raw drawing says of each node.

use super::args::{arg_tags, ArgTag};
use super::emitter::StmtModel;
use super::label_laws::ends_with;
use super::naming::shortcut_text;
use super::raw::{
    carried_text, kind_debug, notes_text, outs_text, raw_box, raw_edge, raw_edges, raw_label,
    raw_nodes, raw_vn_text, stored_text, tagged_outputs, value_kind_debug, variant_text,
};
use super::style::bare_text;
use crate::const_value::ConstModel;
use crate::fmt::{dec, hex, signed_dec};
use crate::function::func::Function;
use crate::mem_partition::AliasClass;
use crate::node::{FunctionArgSource, NodeId, NodeKind, ValueKind, ValueType};
use crate::target::Vn;
use vstd::prelude::*;

verus! {

/// A type is written as it is named, with a capital letter.
pub proof fn law_types_with_a_capital(ty: ValueType)
    ensures
        variant_text(ty).len() == ty.name().len(),
        variant_text(ty)[0] as u32 + 32 == ty.name()[0] as u32,
        variant_text(ty).skip(1) == ty.name().skip(1),
        variant_text(ty) == (if ty.integer() {
            "I"@
        } else {
            "F"@
        }) + dec(ty.width()),
{
    crate::kind_laws::lemma_width_digits();
    crate::kind_laws::law_type_names_say_class_and_width(ty);
    reveal_strlit("i");
    reveal_strlit("f");
    reveal_strlit("I");
    reveal_strlit("F");
    reveal_strlit("I1");
    reveal_strlit("I8");
    reveal_strlit("I16");
    reveal_strlit("I32");
    reveal_strlit("I64");
    reveal_strlit("I80");
    reveal_strlit("I128");
    reveal_strlit("I256");
    reveal_strlit("I512");
    reveal_strlit("F16");
    reveal_strlit("F32");
    reveal_strlit("F64");
    reveal_strlit("F80");
    reveal_strlit("F128");
    let letter = if ty.integer() {
        "I"@
    } else {
        "F"@
    };
    assert(variant_text(ty) =~= letter + dec(ty.width()));
    assert(variant_text(ty).skip(1) =~= dec(ty.width()));
    assert(ty.name().skip(1) =~= dec(ty.width()));
}

/// The kinds of values.
pub proof fn law_raw_value_kinds(kind: ValueKind)
    ensures
        kind is Control ==> value_kind_debug(kind) == "Control"@,
        kind is PhiToken ==> value_kind_debug(kind) == "PhiToken"@,
        kind is Memory ==> value_kind_debug(kind) == "Memory"@,
        kind == ValueKind::MemoryPart(AliasClass::Stack) ==> value_kind_debug(kind)
            == "MemoryPart("@ + "Stack"@ + ")"@,
        kind == ValueKind::MemoryPart(AliasClass::Heap) ==> value_kind_debug(kind) == "MemoryPart("@
            + "Heap"@ + ")"@,
        kind == ValueKind::MemoryPart(AliasClass::Rom) ==> value_kind_debug(kind) == "MemoryPart("@
            + "Rom"@ + ")"@,
        kind == ValueKind::MemoryPart(AliasClass::Unknown) ==> value_kind_debug(kind)
            == "MemoryPart("@ + "Unknown"@ + ")"@,
        kind matches ValueKind::Typed(ty) ==> value_kind_debug(kind) == "Typed("@ + variant_text(ty)
            + ")"@,
{
}

/// A varnode is its space, its offset and its size.
pub proof fn law_raw_varnodes(vn: Vn)
    ensures
        raw_vn_text(vn) == shortcut_text(vn.addr_space) + ("0x"@ + hex(vn.addr_off as nat)) + ":"@
            + dec(vn.size as nat),
{
}

/// The kinds of nodes, with the ids and numbers they carry.
pub proof fn law_raw_node_kinds(f: &Function, kind: NodeKind)
    ensures
        kind matches NodeKind::InitialVar(id) ==> kind_debug(f, kind) == "InitialVar(#"@ + dec(
            id.0 as nat,
        ) + (if id.0 < f.vns().len() {
            " "@ + raw_vn_text(f.vns()[id.0 as int]) + ")"@
        } else {
            " ?)"@
        }),
        kind matches NodeKind::FunctionArg { source, index } ==> kind_debug(f, kind)
            == "FunctionArg(#"@ + dec(index as nat) + " "@ + (match source {
            FunctionArgSource::Register(vn) => raw_vn_text(vn),
            FunctionArgSource::Stack { space, offset } => shortcut_text(space) + "["@ + signed_dec(
                offset as int,
            ) + "]"@,
        }) + ")"@,
        kind matches NodeKind::Switch(id) ==> kind_debug(f, kind) == "Switch(#"@ + dec(id.0 as nat)
            + ")"@,
        kind matches NodeKind::Call { cc: Some(id) } ==> kind_debug(f, kind) == "Call(#"@ + dec(
            id.0 as nat,
        ) + ")"@,
        kind == (NodeKind::Call { cc: None }) ==> kind_debug(f, kind) == "Call"@,
        kind matches NodeKind::CallOther { user_op_id } ==> kind_debug(f, kind)
            == "CallOther { user_op_id: "@ + dec(user_op_id as nat) + " }"@,
        kind matches NodeKind::SegmentOp { op_id } ==> kind_debug(f, kind) == "SegmentOp { op_id: "@
            + dec(op_id as nat) + " }"@,
        kind matches NodeKind::Load(space) ==> kind_debug(f, kind) == "Load("@ + shortcut_text(space)
            + ")"@,
        kind matches NodeKind::Store(space) ==> kind_debug(f, kind) == "Store("@ + shortcut_text(
            space,
        ) + ")"@,
        kind matches NodeKind::StackStore { space, offset } ==> kind_debug(f, kind) == "StackStore("@
            + shortcut_text(space) + "["@ + signed_dec(offset as int) + "])"@,
        kind matches NodeKind::StackStorePhi { space } ==> kind_debug(f, kind) == "StackStorePhi("@
            + shortcut_text(space) + ")"@,
        kind matches NodeKind::IntConst(id) ==> kind_debug(f, kind) == "IntConst(#"@ + dec(
            id.0 as nat,
        ) + ")"@,
        kind matches NodeKind::FloatConst(bits) ==> kind_debug(f, kind) == "FloatConst("@ + dec(
            bits as nat,
        ) + ")"@,
        kind == NodeKind::BoolConst(true) ==> kind_debug(f, kind) == "BoolConst("@ + "true"@ + ")"@,
        kind == NodeKind::BoolConst(false) ==> kind_debug(f, kind) == "BoolConst("@ + "false"@
            + ")"@,
        kind is IntUnaryOp ==> kind_debug(f, kind) == "IntUnaryOp("@ + bare_text(kind) + ")"@,
        kind is IntBinaryOp ==> kind_debug(f, kind) == "IntBinaryOp("@ + bare_text(kind) + ")"@,
        kind is IntCmpOp ==> kind_debug(f, kind) == "IntCmpOp("@ + bare_text(kind) + ")"@,
        kind is Extend ==> kind_debug(f, kind) == "Extend("@ + bare_text(kind) + ")"@,
        kind is BoolBinaryOp ==> kind_debug(f, kind) == "BoolBinaryOp("@ + bare_text(kind) + ")"@,
        kind is BoolUnaryOp ==> kind_debug(f, kind) == "BoolUnaryOp("@ + bare_text(kind) + ")"@,
        kind is FloatBinaryOp ==> kind_debug(f, kind) == "FloatBinaryOp("@ + bare_text(kind) + ")"@,
        kind is FloatUnaryOp ==> kind_debug(f, kind) == "FloatUnaryOp("@ + bare_text(kind) + ")"@,
        kind is FloatCmpOp ==> kind_debug(f, kind) == "FloatCmpOp("@ + bare_text(kind) + ")"@,
        kind is Entry || kind is InitialMemory || kind is Region || kind is ControlState || kind
            is MemPhi || kind is Phi || kind is If || kind is Return || kind is IndirectBranch
            || kind is Unreachable || kind is Truncate || kind is Popcount || kind is Lzcount
            || kind is CastToBool || kind is CastToInt || kind is CastToFloat || kind is IntToFloat
            || kind is FloatToInt || kind is FloatToFloat || kind is IntBitsToFloat || kind
            is FloatBitsToInt || kind is CPoolRef || kind is New || kind is MemProject || kind
            is MemUnion ==> kind_debug(f, kind) == bare_text(kind),
{
    reveal_strlit(" ");
    reveal_strlit(" ?)");
    reveal_strlit("])");
    reveal_strlit("]");
    reveal_strlit(")");
    match kind {
        NodeKind::InitialVar(id) => {
            let head = "InitialVar(#"@ + dec(id.0 as nat);
            if id.0 < f.vns().len() {
                let vn = raw_vn_text(f.vns()[id.0 as int]);
                assert(head + " "@ + vn + ")"@ =~= head + (" "@ + vn + ")"@));
            }
        },
        NodeKind::FunctionArg { source, index } => {
            if let FunctionArgSource::Stack { space, offset } = source {
                let head = "FunctionArg(#"@ + dec(index as nat) + " "@;
                let place = shortcut_text(space) + "["@ + signed_dec(offset as int);
                assert(head + shortcut_text(space) + "["@ + signed_dec(offset as int) + "])"@
                    =~= head + (place + "]"@) + ")"@);
            }
        },
        _ => {},
    }
}

/// A constant shows what its id stands for.
pub proof fn law_raw_constants(f: &Function, id: crate::node::ConstId)
    requires
        id.0 < f.consts().len(),
    ensures
        f.consts()[id.0 as int] matches ConstModel::Bits(v) ==> stored_text(
            f,
            NodeKind::IntConst(id),
        ) == "\n= "@ + ("Bits("@ + dec(v as nat) + ")"@),
        f.consts()[id.0 as int] matches ConstModel::Wide(limbs) ==> (limbs.len() == 1
            ==> stored_text(f, NodeKind::IntConst(id)) == "\n= "@ + ("Wide(["@ + dec(
            limbs[0] as nat,
        ) + "])"@)),
        forall|kind: NodeKind|
            !(kind is IntConst) ==> (#[trigger] stored_text(f, kind)).len() == 0,
{
    reveal_strlit("");
}

/// The outputs are listed in order behind the node.
pub proof fn law_raw_outputs(f: &Function, n: NodeId)
    ensures
        f.g().outs(n).len() == 0 ==> outs_text(f, n).len() == 0,
        f.g().outs(n).len() == 1 ==> outs_text(f, n) == "\nout: "@ + value_kind_debug(
            f.g().value_kind(f.g().outs(n)[0]),
        ),
        f.g().outs(n).len() == 2 ==> outs_text(f, n) == "\nout: "@ + value_kind_debug(
            f.g().value_kind(f.g().outs(n)[0]),
        ) + ", "@ + value_kind_debug(f.g().value_kind(f.g().outs(n)[1])),
{
    reveal_strlit("");
    reveal_with_fuel(super::raw::outs_joined, 3);
    let first = value_kind_debug(f.g().value_kind(f.g().outs(n)[0]));
    assert("\nout: "@ + ""@ + first =~= "\nout: "@ + first);
}

/// What is noted below a node: its stack slot, the varnode of its first output,
/// and the name of its user operation.
pub proof fn law_raw_notes(f: &Function, n: NodeId)
    requires
        !(f.g().kind(n) is Call),
    ensures
        ({
            let place = match f.sp_offset(n) {
                Some((_, o)) => "\nsp["@ + signed_dec(o as int) + "]"@,
                None => Seq::empty(),
            };
            let tag = if f.g().outs(n).len() > 0 && f.vn_for(f.g().outs(n)[0]) is Some {
                "\ntag="@ + raw_vn_text(f.vn_for(f.g().outs(n)[0])->0)
            } else {
                Seq::empty()
            };
            let name = match f.user_op_name(n) {
                Some(text) => "\nop="@ + text,
                None => Seq::empty(),
            };
            notes_text(f, n) == place + tag + name
        }),
{
    reveal_strlit("");
    let place = match f.sp_offset(n) {
        Some((_, o)) => "\nsp["@ + signed_dec(o as int) + "]"@,
        None => Seq::empty(),
    };
    let tag = if f.g().outs(n).len() > 0 && f.vn_for(f.g().outs(n)[0]) is Some {
        "\ntag="@ + raw_vn_text(f.vn_for(f.g().outs(n)[0])->0)
    } else {
        Seq::empty()
    };
    let name = match f.user_op_name(n) {
        Some(text) => "\nop="@ + text,
        None => Seq::empty(),
    };
    assert(notes_text(f, n) =~= place + tag + name);
}

/// A call also says how many of its outputs have a varnode.
pub proof fn law_raw_clobbers_are_counted(f: &Function, n: NodeId, k: int)
    requires
        0 <= k <= f.g().outs(n).len(),
    ensures
        tagged_outputs(f, n, k) <= k,
        tagged_outputs(f, n, k) == 0 <==> forall|i: int|
            0 <= i < k ==> f.vn_for(#[trigger] f.g().outs(n)[i]) is None,
        tagged_outputs(f, n, k) == k <==> forall|i: int|
            0 <= i < k ==> f.vn_for(#[trigger] f.g().outs(n)[i]) is Some,
        k == f.g().outs(n).len() && f.g().kind(n) is Call ==> ends_with(
            notes_text(f, n),
            "\nclobbers="@ + dec(tagged_outputs(f, n, k)),
        ),
    decreases k,
{
    if k > 0 {
        law_raw_clobbers_are_counted(f, n, k - 1);
        assert(0 <= k - 1 && f.g().outs(n)[k - 1] == f.g().outs(n)[k - 1]);
    }
    if k == f.g().outs(n).len() && f.g().kind(n) is Call {
        let text = notes_text(f, n);
        let end = "\nclobbers="@ + dec(tagged_outputs(f, n, k));
        assert(text.skip(text.len() - end.len()) =~= end);
    }
}

/// The label of a node: its id, its kind, its constant, its outputs, what is
/// noted of it, and the arguments it carries, integers before floats.
pub proof fn law_raw_labels(f: &Function, n: NodeId)
    ensures
        raw_label(f, n) == "n"@ + dec(n.0 as nat) + "  "@ + kind_debug(f, f.g().kind(n))
            + stored_text(f, f.g().kind(n)) + outs_text(f, n) + notes_text(f, n) + carried_text(
            arg_tags(f, n),
            false,
        ) + carried_text(arg_tags(f, n), true),
{
}

/// How the arguments that a node carries are written.
pub proof fn law_raw_arguments(index: u32, float: bool)
    ensures
        carried_text(seq![ArgTag { float: false, index }], false) == "\narg["@ + dec(index as nat)
            + "]"@,
        carried_text(seq![ArgTag { float: true, index }], true) == "\nfloat_arg["@ + dec(
            index as nat,
        ) + "]"@,
        carried_text(seq![ArgTag { float, index }], !float).len() == 0,
        carried_text(Seq::empty(), float).len() == 0,
{
    reveal_strlit("");
    reveal_with_fuel(super::raw::indices_joined, 2);
    crate::fmt::lemma_dec_nonempty(index as nat);
}

/// Every node of a raw drawing is a box, followed by the edges into it in order.
pub proof fn law_raw_drawing(f: &Function, order: Seq<NodeId>, k: int)
    requires
        0 <= k < order.len(),
    ensures
        raw_nodes(f, order, 0).len() == 0,
        raw_nodes(f, order, k + 1) == raw_nodes(f, order, k).push(raw_box(f, None, order[k]))
            + raw_edges(f, None, order[k], f.g().ins(order[k]).len() as int),
        raw_edges(f, None, order[k], f.g().ins(order[k]).len() as int).len() == f.g().ins(
            order[k],
        ).len(),
        forall|i: int|
            0 <= i < f.g().ins(order[k]).len() ==> #[trigger] raw_edges(
                f,
                None,
                order[k],
                f.g().ins(order[k]).len() as int,
            )[i] == raw_edge(f, order[k], i),
        raw_box(f, None, order[k]) == (StmtModel::Node {
            id: "n"@ + dec(order[k].0 as nat),
            attrs: seq![("label"@, raw_label(f, order[k])), ("shape"@, "box"@)],
        }),
{
    lemma_raw_edges(f, order[k], f.g().ins(order[k]).len() as int);
    assert(seq![("label"@, raw_label(f, order[k])), ("shape"@, "box"@)] + Seq::empty()
        =~= seq![("label"@, raw_label(f, order[k])), ("shape"@, "box"@)]);
}

proof fn lemma_raw_edges(f: &Function, n: NodeId, k: int)
    requires
        0 <= k,
    ensures
        raw_edges(f, None, n, k).len() == k,
        forall|i: int| 0 <= i < k ==> #[trigger] raw_edges(f, None, n, k)[i] == raw_edge(f, n, i),
    decreases k,
{
    if k > 0 {
        lemma_raw_edges(f, n, k - 1);
    }
}

} // verus!
