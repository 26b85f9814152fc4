//! How each kind of node and edge looks, by name.

use super::style::{
    bare_text, edge_look, fill_text, pred_of, role_name_text, role_text, shape_text, slot_role,
    unsigned_text, SlotRole,
};
use crate::fmt::dec;
use crate::node::{
    BoolBinaryOp, ExtendOp, FloatBinaryOp, FloatCmpOp, FloatUnaryOp, IntBinaryOp, IntCmpOp,
    NodeKind, ValueType,
};
use vstd::prelude::*;

verus! {

/// The outline of every kind of node.
pub proof fn law_shapes(kind: NodeKind)
    ensures
        kind is Entry || kind is InitialMemory || kind is InitialVar || kind is FunctionArg ==> shape_text(kind) == "Mdiamond"@,
        kind is Region || kind is ControlState ==> shape_text(kind) == "invhouse"@,
        kind is Phi || kind is MemPhi ==> shape_text(kind) == "house"@,
        kind is If ==> shape_text(kind) == "diamond"@,
        kind is Load || kind is Store || kind is StackStore || kind is StackStorePhi ==> shape_text(kind) == "box3d"@,
        kind is Call ==> shape_text(kind) == "rarrow"@,
        kind is CallOther ==> shape_text(kind) == "doubleoctagon"@,
        kind is SegmentOp ==> shape_text(kind) == "parallelogram"@,
        kind is CPoolRef ==> shape_text(kind) == "folder"@,
        kind is New ==> shape_text(kind) == "component"@,
        kind is Return || kind is IndirectBranch ==> shape_text(kind) == "doublecircle"@,
        kind is IntConst || kind is BoolConst || kind is FloatConst ==> shape_text(kind) == "ellipse"@,
        kind is Switch || kind is Unreachable || kind is IntUnaryOp || kind is IntBinaryOp || kind is IntCmpOp || kind is Extend || kind is BoolBinaryOp || kind is FloatBinaryOp || kind is FloatUnaryOp || kind is FloatCmpOp || kind is Truncate || kind is Popcount || kind is Lzcount || kind is CastToBool || kind is CastToInt || kind is CastToFloat || kind is BoolUnaryOp || kind is IntToFloat || kind is FloatToInt || kind is FloatToFloat || kind is IntBitsToFloat || kind is FloatBitsToInt || kind is MemProject || kind is MemUnion ==> shape_text(kind) == "box"@,
{
}

/// The fill of every kind of node.
pub proof fn law_fills(kind: NodeKind)
    ensures
        kind is Entry || kind is InitialMemory || kind is InitialVar || kind is FunctionArg ==> fill_text(kind) == "\"#1a3a5c\""@,
        kind is Region || kind is ControlState ==> fill_text(kind) == "\"#2a1a4a\""@,
        kind is Phi || kind is MemPhi ==> fill_text(kind) == "\"#163030\""@,
        kind is If ==> fill_text(kind) == "\"#3a2a10\""@,
        kind is Load || kind is Store ==> fill_text(kind) == "\"#102030\""@,
        kind is StackStore || kind is StackStorePhi ==> fill_text(kind) == "\"#20182a\""@,
        kind is Call ==> fill_text(kind) == "\"#3a1010\""@,
        kind is CallOther ==> fill_text(kind) == "\"#3a2810\""@,
        kind is SegmentOp ==> fill_text(kind) == "\"#10283a\""@,
        kind is CPoolRef ==> fill_text(kind) == "\"#2a1a3a\""@,
        kind is New ==> fill_text(kind) == "\"#103a2a\""@,
        kind is Return || kind is IndirectBranch ==> fill_text(kind) == "\"#103a10\""@,
        kind is FloatConst || kind is FloatBinaryOp || kind is FloatUnaryOp || kind is FloatCmpOp ==> fill_text(kind) == "\"#1a3020\""@,
        kind is IntToFloat || kind is FloatToInt || kind is FloatToFloat || kind is IntBitsToFloat || kind is FloatBitsToInt || kind is CastToFloat ==> fill_text(kind) == "\"#302018\""@,
        kind is Switch || kind is Unreachable || kind is IntConst || kind is BoolConst || kind is IntUnaryOp || kind is IntBinaryOp || kind is IntCmpOp || kind is Extend || kind is BoolBinaryOp || kind is Truncate || kind is Popcount || kind is Lzcount || kind is CastToBool || kind is CastToInt || kind is BoolUnaryOp || kind is MemProject || kind is MemUnion ==> fill_text(kind) == "\"#2d2d2d\""@,
{
}

/// The colour of an edge into each kind of input.
pub proof fn law_role_colours(role: SlotRole)
    ensures
        role is Control ==> role_text(role) == "\"#00cccc\""@,
        role is Memory ==> role_text(role) == "\"#cc88aa\""@,
        role is Phi || role is In ==> role_text(role) == "\"#dddddd\""@,
        role is Lhs ==> role_text(role) == "\"#4488ff\""@,
        role is Rhs ==> role_text(role) == "\"#ff4444\""@,
        role is Val || role is Ret ==> role_text(role) == "\"#88cc88\""@,
        role is Addr || role is Off ==> role_text(role) == "\"#cc88ff\""@,
        role is Data || role is Arg || role is Ref ==> role_text(role) == "\"#ff8800\""@,
        role is Target || role is Seg || role is Sp ==> role_text(role) == "\"#ffdd44\""@,
        role is Cond ==> role_text(role) == "\"#ff44ff\""@,
{
}

/// What an edge into each kind of input says.
pub proof fn law_role_names(role: SlotRole)
    ensures
        role is Control ==> role_name_text(role) == "ctrl"@,
        role is Memory ==> role_name_text(role) == "mem"@,
        role is Phi ==> role_name_text(role) == "phi"@,
        role is In ==> role_name_text(role) == "in"@,
        role is Lhs ==> role_name_text(role) == "lhs"@,
        role is Rhs ==> role_name_text(role) == "rhs"@,
        role is Val ==> role_name_text(role) == "val"@,
        role is Ret ==> role_name_text(role) == "ret"@,
        role is Addr ==> role_name_text(role) == "addr"@,
        role is Off ==> role_name_text(role) == "off"@,
        role is Data ==> role_name_text(role) == "data"@,
        role is Arg ==> role_name_text(role) == "arg"@,
        role is Ref ==> role_name_text(role) == "ref"@,
        role is Target ==> role_name_text(role) == "target"@,
        role is Seg ==> role_name_text(role) == "seg"@,
        role is Sp ==> role_name_text(role) == "sp"@,
        role is Cond ==> role_name_text(role) == "cond"@,
{
}

/// The name that drawings label every kind of node with.
#[verifier::rlimit(50)]
#[verifier::spinoff_prover]
pub proof fn law_bare_names(kind: NodeKind)
    ensures
        kind is Entry ==> bare_text(kind) == "Entry"@,
        kind is InitialMemory ==> bare_text(kind) == "InitialMemory"@,
        kind is InitialVar ==> bare_text(kind) == "InitialVar"@,
        kind is FunctionArg ==> bare_text(kind) == "FunctionArg"@,
        kind is Region ==> bare_text(kind) == "Region"@,
        kind is ControlState ==> bare_text(kind) == "ControlState"@,
        kind is MemPhi ==> bare_text(kind) == "MemPhi"@,
        kind is Phi ==> bare_text(kind) == "Phi"@,
        kind is If ==> bare_text(kind) == "If"@,
        kind is Switch ==> bare_text(kind) == "Switch"@,
        kind is Call ==> bare_text(kind) == "Call"@,
        kind is CallOther ==> bare_text(kind) == "CallOther"@,
        kind is Return ==> bare_text(kind) == "Return"@,
        kind is IndirectBranch ==> bare_text(kind) == "IndirectBranch"@,
        kind is Unreachable ==> bare_text(kind) == "Unreachable"@,
        kind is Load ==> bare_text(kind) == "Load"@,
        kind is Store ==> bare_text(kind) == "Store"@,
        kind is StackStore ==> bare_text(kind) == "StackStore"@,
        kind is StackStorePhi ==> bare_text(kind) == "StackStorePhi"@,
        kind is IntConst ==> bare_text(kind) == "IntConst"@,
        kind is FloatConst ==> bare_text(kind) == "FloatConst"@,
        kind is BoolConst ==> bare_text(kind) == "BoolConst"@,
        kind is IntUnaryOp ==> bare_text(kind) == "Neg"@,
        kind == NodeKind::IntBinaryOp(IntBinaryOp::Add) ==> bare_text(kind) == "Add"@,
        kind == NodeKind::IntBinaryOp(IntBinaryOp::And) ==> bare_text(kind) == "And"@,
        kind == NodeKind::IntBinaryOp(IntBinaryOp::Or) ==> bare_text(kind) == "Or"@,
        kind == NodeKind::IntBinaryOp(IntBinaryOp::Xor) ==> bare_text(kind) == "Xor"@,
        kind == NodeKind::IntBinaryOp(IntBinaryOp::Div) ==> bare_text(kind) == "Div"@,
        kind == NodeKind::IntBinaryOp(IntBinaryOp::Sdiv) ==> bare_text(kind) == "Sdiv"@,
        kind == NodeKind::IntBinaryOp(IntBinaryOp::Rem) ==> bare_text(kind) == "Rem"@,
        kind == NodeKind::IntBinaryOp(IntBinaryOp::Srem) ==> bare_text(kind) == "Srem"@,
        kind == NodeKind::IntBinaryOp(IntBinaryOp::ShiftRight) ==> bare_text(kind) == "ShiftRight"@,
        kind == NodeKind::IntBinaryOp(IntBinaryOp::SShiftRight) ==> bare_text(kind) == "SShiftRight"@,
        kind == NodeKind::IntBinaryOp(IntBinaryOp::ShiftLeft) ==> bare_text(kind) == "ShiftLeft"@,
        kind == NodeKind::IntBinaryOp(IntBinaryOp::Mul) ==> bare_text(kind) == "Mul"@,
        kind == NodeKind::IntCmpOp(IntCmpOp::Equal) ==> bare_text(kind) == "Equal"@,
        kind == NodeKind::IntCmpOp(IntCmpOp::Sless) ==> bare_text(kind) == "Sless"@,
        kind == NodeKind::IntCmpOp(IntCmpOp::Less) ==> bare_text(kind) == "Less"@,
        kind == NodeKind::IntCmpOp(IntCmpOp::Carry) ==> bare_text(kind) == "Carry"@,
        kind == NodeKind::IntCmpOp(IntCmpOp::Scarry) ==> bare_text(kind) == "Scarry"@,
        kind == NodeKind::IntCmpOp(IntCmpOp::Sborrow) ==> bare_text(kind) == "Sborrow"@,
        kind == NodeKind::Extend(ExtendOp::ZeroExtend) ==> bare_text(kind) == "ZeroExtend"@,
        kind == NodeKind::Extend(ExtendOp::SignExtend) ==> bare_text(kind) == "SignExtend"@,
        kind == NodeKind::BoolBinaryOp(BoolBinaryOp::And) ==> bare_text(kind) == "And"@,
        kind == NodeKind::BoolBinaryOp(BoolBinaryOp::Or) ==> bare_text(kind) == "Or"@,
        kind == NodeKind::BoolBinaryOp(BoolBinaryOp::Xor) ==> bare_text(kind) == "Xor"@,
        kind == NodeKind::FloatBinaryOp(FloatBinaryOp::Add) ==> bare_text(kind) == "Add"@,
        kind == NodeKind::FloatBinaryOp(FloatBinaryOp::Mul) ==> bare_text(kind) == "Mul"@,
        kind == NodeKind::FloatBinaryOp(FloatBinaryOp::Div) ==> bare_text(kind) == "Div"@,
        kind == NodeKind::FloatUnaryOp(FloatUnaryOp::Neg) ==> bare_text(kind) == "Neg"@,
        kind == NodeKind::FloatUnaryOp(FloatUnaryOp::Abs) ==> bare_text(kind) == "Abs"@,
        kind == NodeKind::FloatUnaryOp(FloatUnaryOp::Sqrt) ==> bare_text(kind) == "Sqrt"@,
        kind == NodeKind::FloatUnaryOp(FloatUnaryOp::Ceil) ==> bare_text(kind) == "Ceil"@,
        kind == NodeKind::FloatUnaryOp(FloatUnaryOp::Floor) ==> bare_text(kind) == "Floor"@,
        kind == NodeKind::FloatUnaryOp(FloatUnaryOp::Round) ==> bare_text(kind) == "Round"@,
        kind == NodeKind::FloatCmpOp(FloatCmpOp::Equal) ==> bare_text(kind) == "Equal"@,
        kind == NodeKind::FloatCmpOp(FloatCmpOp::Less) ==> bare_text(kind) == "Less"@,
        kind is Truncate ==> bare_text(kind) == "Truncate"@,
        kind is Popcount ==> bare_text(kind) == "Popcount"@,
        kind is Lzcount ==> bare_text(kind) == "Lzcount"@,
        kind is CastToBool ==> bare_text(kind) == "CastToBool"@,
        kind is CastToInt ==> bare_text(kind) == "CastToInt"@,
        kind is CastToFloat ==> bare_text(kind) == "CastToFloat"@,
        kind is BoolUnaryOp ==> bare_text(kind) == "Not"@,
        kind is IntToFloat ==> bare_text(kind) == "IntToFloat"@,
        kind is FloatToInt ==> bare_text(kind) == "FloatToInt"@,
        kind is FloatToFloat ==> bare_text(kind) == "FloatToFloat"@,
        kind is IntBitsToFloat ==> bare_text(kind) == "IntBitsToFloat"@,
        kind is FloatBitsToInt ==> bare_text(kind) == "FloatBitsToInt"@,
        kind is SegmentOp ==> bare_text(kind) == "SegmentOp"@,
        kind is CPoolRef ==> bare_text(kind) == "CPoolRef"@,
        kind is New ==> bare_text(kind) == "New"@,
        kind is MemProject ==> bare_text(kind) == "MemProject"@,
        kind is MemUnion ==> bare_text(kind) == "MemUnion"@,
{
}

/// Without a sign, an integer type is a `u` and its width, the truth type has a
/// name of its own, and a float type is called as ever.
pub proof fn law_unsigned_names(ty: ValueType)
    ensures
        ty is I1 ==> unsigned_text(ty) == "bool"@,
        ty.integer() && !(ty is I1) ==> unsigned_text(ty) == "u"@ + dec(ty.width()),
        !ty.integer() ==> unsigned_text(ty) == "f"@ + dec(ty.width()),
        !ty.integer() ==> unsigned_text(ty) == ty.name(),
{
    crate::kind_laws::lemma_width_digits();
    reveal_strlit("u");
    reveal_strlit("f");
    reveal_strlit("u8");
    reveal_strlit("u16");
    reveal_strlit("u32");
    reveal_strlit("u64");
    reveal_strlit("u80");
    reveal_strlit("u128");
    reveal_strlit("u256");
    reveal_strlit("u512");
    reveal_strlit("f16");
    reveal_strlit("f32");
    reveal_strlit("f64");
    reveal_strlit("f80");
    reveal_strlit("f128");
    if ty.integer() && !(ty is I1) {
        assert(unsigned_text(ty) =~= "u"@ + dec(ty.width()));
    }
    if !ty.integer() {
        assert(unsigned_text(ty) =~= "f"@ + dec(ty.width()));
    }
}

/// What each input is to its node. Control comes first, then memory, then what
/// the node works on.
pub proof fn law_input_roles(kind: NodeKind, i: int)
    requires
        0 <= i,
    ensures
        kind is Region || kind is ControlState ==> slot_role(kind, i) == Some(SlotRole::Control),
        kind is Phi || kind is MemPhi ==> slot_role(kind, i) == Some(
            if i == 0 {
                SlotRole::Phi
            } else {
                SlotRole::In
            },
        ),
        kind is If || kind is Switch || kind is Call || kind is CallOther || kind is Return || kind
            is IndirectBranch || kind is Unreachable ==> slot_role(kind, 0) == Some(
            SlotRole::Control,
        ),
        kind is Call || kind is CallOther || kind is Return || kind is IndirectBranch ==> slot_role(
            kind,
            1,
        ) == Some(SlotRole::Memory),
        kind is Load || kind is Store || kind is StackStore || kind is StackStorePhi ==> slot_role(
            kind,
            0,
        ) == Some(SlotRole::Memory),
        kind is Call || kind is IndirectBranch ==> slot_role(kind, 2) == Some(SlotRole::Target),
        kind is If ==> slot_role(kind, 1) == Some(SlotRole::Cond),
        kind is Switch ==> slot_role(kind, 1) == Some(SlotRole::Val),
        kind is Call ==> slot_role(kind, 3) == Some(SlotRole::Sp),
        kind is Call && i >= 4 ==> slot_role(kind, i) == Some(SlotRole::Arg),
        kind is CallOther && i >= 2 ==> slot_role(kind, i) == Some(SlotRole::Arg),
        kind is Return && i >= 2 ==> slot_role(kind, i) == Some(SlotRole::Ret),
        kind is Load || kind is Store ==> slot_role(kind, 1) == Some(SlotRole::Addr),
        kind is StackStore || kind is StackStorePhi ==> slot_role(kind, 1) == Some(SlotRole::Sp),
        kind is Store || kind is StackStore || kind is StackStorePhi ==> slot_role(kind, 2) == Some(
            SlotRole::Data,
        ),
        kind is IntBinaryOp || kind is IntCmpOp || kind is BoolBinaryOp || kind is FloatBinaryOp
            || kind is FloatCmpOp ==> slot_role(kind, 0) == Some(SlotRole::Lhs) && slot_role(
            kind,
            1,
        ) == Some(SlotRole::Rhs),
        kind is IntUnaryOp || kind is BoolUnaryOp || kind is FloatUnaryOp || kind is Truncate
            || kind is Popcount || kind is Lzcount || kind is Extend || kind is CastToBool || kind
            is CastToInt || kind is CastToFloat || kind is IntToFloat || kind is FloatToInt || kind
            is FloatToFloat || kind is IntBitsToFloat || kind is FloatBitsToInt ==> slot_role(
            kind,
            0,
        ) == Some(SlotRole::Val),
        kind is SegmentOp ==> slot_role(kind, 0) == Some(SlotRole::Seg) && slot_role(kind, 1)
            == Some(SlotRole::Off),
        kind is CPoolRef || kind is New ==> slot_role(kind, i) == Some(SlotRole::Ref),
        kind is MemProject || kind is MemUnion ==> slot_role(kind, i) == Some(SlotRole::Memory),
        kind is Entry || kind is InitialMemory || kind is InitialVar || kind is FunctionArg || kind
            is IntConst || kind is FloatConst || kind is BoolConst ==> slot_role(kind, i) is None,
        i >= 1 && kind is Unreachable ==> slot_role(kind, i) is None,
        i >= 2 && (kind is If || kind is Switch || kind is Load) ==> slot_role(kind, i) is None,
        i >= 3 && (kind is IndirectBranch || kind is Store || kind is StackStore || kind
            is StackStorePhi) ==> slot_role(kind, i) is None,
        i >= 2 && (kind is IntBinaryOp || kind is IntCmpOp || kind is BoolBinaryOp || kind
            is FloatBinaryOp || kind is FloatCmpOp || kind is SegmentOp) ==> slot_role(kind, i)
            is None,
        i >= 1 && (kind is IntUnaryOp || kind is BoolUnaryOp || kind is FloatUnaryOp || kind
            is Truncate || kind is Popcount || kind is Lzcount || kind is Extend || kind
            is CastToBool || kind is CastToInt || kind is CastToFloat || kind is IntToFloat || kind
            is FloatToInt || kind is FloatToFloat || kind is IntBitsToFloat || kind
            is FloatBitsToInt) ==> slot_role(kind, i) is None,
{
}

/// An edge looks as the role of its input says; one without a role is grey and
/// says nothing.
pub proof fn law_edge_looks(kind: NodeKind, i: int)
    ensures
        slot_role(kind, i) matches Some(role) ==> edge_look(kind, i).0 == role_name_text(role)
            && edge_look(kind, i).1 == role_text(role),
        slot_role(kind, i) is None ==> edge_look(kind, i).0.len() == 0 && edge_look(kind, i).1
            == "\"#cccccc\""@,
{
    reveal_strlit("");
}

/// The inputs of a region are its predecessors in order, and input `i + 1` of a
/// phi belongs to predecessor `i`.
pub proof fn law_phi_inputs_match_predecessors(i: int)
    requires
        0 <= i,
    ensures
        pred_of(NodeKind::Region, i) == Some(i),
        pred_of(NodeKind::Phi, i + 1) == pred_of(NodeKind::Region, i),
        pred_of(NodeKind::MemPhi, i + 1) == pred_of(NodeKind::Region, i),
        pred_of(NodeKind::Phi, 0) is None,
        pred_of(NodeKind::MemPhi, 0) is None,
        forall|kind: NodeKind, k: int|
            !(kind is Region) && !(kind is Phi) && !(kind is MemPhi) ==> (#[trigger] pred_of(
                kind,
                k,
            )) is None,
{
}

} // verus!
