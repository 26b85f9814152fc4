//! The name that each operation prints under.

use super::render::op_text;
use crate::dot::style::bare_text;
use crate::node::{
    BoolBinaryOp, ExtendOp, FloatBinaryOp, FloatCmpOp, FloatUnaryOp, IntBinaryOp, IntCmpOp,
    NodeKind,
};
use vstd::prelude::*;

verus! {

/// The name of every operation.
#[verifier::rlimit(50)]
#[verifier::spinoff_prover]
pub proof fn law_operation_names(kind: NodeKind)
    ensures
        kind is Entry ==> op_text(kind) == "entry"@,
        kind is InitialMemory ==> op_text(kind) == "initial_memory"@,
        kind is InitialVar ==> op_text(kind) == "initial_var"@,
        kind is FunctionArg ==> op_text(kind) == "function_arg"@,
        kind is Region ==> op_text(kind) == "region"@,
        kind is ControlState ==> op_text(kind) == "control_state"@,
        kind is MemPhi ==> op_text(kind) == "memphi"@,
        kind is Phi ==> op_text(kind) == "phi"@,
        kind is If ==> op_text(kind) == "if"@,
        kind is Switch ==> op_text(kind) == "switch"@,
        kind is Call ==> op_text(kind) == "call"@,
        kind is CallOther ==> op_text(kind) == "callother"@,
        kind is Return ==> op_text(kind) == "return"@,
        kind is IndirectBranch ==> op_text(kind) == "indirect_branch"@,
        kind is Unreachable ==> op_text(kind) == "unreachable"@,
        kind is Load ==> op_text(kind) == "load"@,
        kind is Store ==> op_text(kind) == "store"@,
        kind is StackStore ==> op_text(kind) == "stack_store"@,
        kind is StackStorePhi ==> op_text(kind) == "stack_store_phi"@,
        kind is IntConst ==> op_text(kind) == "iconst"@,
        kind is FloatConst ==> op_text(kind) == "fconst"@,
        kind is BoolConst ==> op_text(kind) == "bconst"@,
        kind is IntUnaryOp ==> op_text(kind) == "int.neg"@,
        kind == NodeKind::IntBinaryOp(IntBinaryOp::Add) ==> op_text(kind) == "int.add"@,
        kind == NodeKind::IntBinaryOp(IntBinaryOp::And) ==> op_text(kind) == "int.and"@,
        kind == NodeKind::IntBinaryOp(IntBinaryOp::Or) ==> op_text(kind) == "int.or"@,
        kind == NodeKind::IntBinaryOp(IntBinaryOp::Xor) ==> op_text(kind) == "int.xor"@,
        kind == NodeKind::IntBinaryOp(IntBinaryOp::Div) ==> op_text(kind) == "int.div"@,
        kind == NodeKind::IntBinaryOp(IntBinaryOp::Sdiv) ==> op_text(kind) == "int.sdiv"@,
        kind == NodeKind::IntBinaryOp(IntBinaryOp::Rem) ==> op_text(kind) == "int.rem"@,
        kind == NodeKind::IntBinaryOp(IntBinaryOp::Srem) ==> op_text(kind) == "int.srem"@,
        kind == NodeKind::IntBinaryOp(IntBinaryOp::ShiftRight) ==> op_text(kind) == "int.shift_right"@,
        kind == NodeKind::IntBinaryOp(IntBinaryOp::SShiftRight) ==> op_text(kind) == "int.sshift_right"@,
        kind == NodeKind::IntBinaryOp(IntBinaryOp::ShiftLeft) ==> op_text(kind) == "int.shift_left"@,
        kind == NodeKind::IntBinaryOp(IntBinaryOp::Mul) ==> op_text(kind) == "int.mul"@,
        kind == NodeKind::IntCmpOp(IntCmpOp::Equal) ==> op_text(kind) == "icmp.equal"@,
        kind == NodeKind::IntCmpOp(IntCmpOp::Sless) ==> op_text(kind) == "icmp.sless"@,
        kind == NodeKind::IntCmpOp(IntCmpOp::Less) ==> op_text(kind) == "icmp.less"@,
        kind == NodeKind::IntCmpOp(IntCmpOp::Carry) ==> op_text(kind) == "icmp.carry"@,
        kind == NodeKind::IntCmpOp(IntCmpOp::Scarry) ==> op_text(kind) == "icmp.scarry"@,
        kind == NodeKind::IntCmpOp(IntCmpOp::Sborrow) ==> op_text(kind) == "icmp.sborrow"@,
        kind is Truncate ==> op_text(kind) == "truncate"@,
        kind is Popcount ==> op_text(kind) == "popcount"@,
        kind is Lzcount ==> op_text(kind) == "lzcount"@,
        kind == NodeKind::Extend(ExtendOp::ZeroExtend) ==> op_text(kind) == "extend.zero"@,
        kind == NodeKind::Extend(ExtendOp::SignExtend) ==> op_text(kind) == "extend.sign"@,
        kind is CastToBool ==> op_text(kind) == "cast.bool"@,
        kind is CastToInt ==> op_text(kind) == "cast.int"@,
        kind is CastToFloat ==> op_text(kind) == "cast.float"@,
        kind == NodeKind::BoolBinaryOp(BoolBinaryOp::And) ==> op_text(kind) == "bool.and"@,
        kind == NodeKind::BoolBinaryOp(BoolBinaryOp::Or) ==> op_text(kind) == "bool.or"@,
        kind == NodeKind::BoolBinaryOp(BoolBinaryOp::Xor) ==> op_text(kind) == "bool.xor"@,
        kind is BoolUnaryOp ==> op_text(kind) == "bool.not"@,
        kind == NodeKind::FloatBinaryOp(FloatBinaryOp::Add) ==> op_text(kind) == "float.add"@,
        kind == NodeKind::FloatBinaryOp(FloatBinaryOp::Mul) ==> op_text(kind) == "float.mul"@,
        kind == NodeKind::FloatBinaryOp(FloatBinaryOp::Div) ==> op_text(kind) == "float.div"@,
        kind == NodeKind::FloatUnaryOp(FloatUnaryOp::Neg) ==> op_text(kind) == "float.neg"@,
        kind == NodeKind::FloatUnaryOp(FloatUnaryOp::Abs) ==> op_text(kind) == "float.abs"@,
        kind == NodeKind::FloatUnaryOp(FloatUnaryOp::Sqrt) ==> op_text(kind) == "float.sqrt"@,
        kind == NodeKind::FloatUnaryOp(FloatUnaryOp::Ceil) ==> op_text(kind) == "float.ceil"@,
        kind == NodeKind::FloatUnaryOp(FloatUnaryOp::Floor) ==> op_text(kind) == "float.floor"@,
        kind == NodeKind::FloatUnaryOp(FloatUnaryOp::Round) ==> op_text(kind) == "float.round"@,
        kind == NodeKind::FloatCmpOp(FloatCmpOp::Equal) ==> op_text(kind) == "fcmp.equal"@,
        kind == NodeKind::FloatCmpOp(FloatCmpOp::Less) ==> op_text(kind) == "fcmp.less"@,
        kind is IntToFloat ==> op_text(kind) == "int_to_float"@,
        kind is FloatToInt ==> op_text(kind) == "float_to_int"@,
        kind is FloatToFloat ==> op_text(kind) == "float_to_float"@,
        kind is IntBitsToFloat ==> op_text(kind) == "int_bits_to_float"@,
        kind is FloatBitsToInt ==> op_text(kind) == "float_bits_to_int"@,
        kind is SegmentOp ==> op_text(kind) == "segment_op"@,
        kind is CPoolRef ==> op_text(kind) == "cpool_ref"@,
        kind is New ==> op_text(kind) == "new"@,
        kind is MemProject ==> op_text(kind) == "mem_project"@,
        kind is MemUnion ==> op_text(kind) == "mem_union"@,
{
}

/// The number of a small letter that a letter stands for.
pub open spec fn small(c: char) -> int {
    if 65 <= c as u32 <= 90 {
        c as u32 + 32
    } else {
        c as u32 as int
    }
}

/// From place `p` on, `text` spells `name` in small letters, with a line before
/// the letter at `gap`, which is a capital after a small one, if `gap` is within
/// the name.
pub open spec fn spells_small(text: Seq<char>, p: int, name: Seq<char>, gap: int) -> bool {
    &&& 0 < gap <= name.len()
    &&& text.len() == p + name.len() + (if gap < name.len() {
        1int
    } else {
        0
    })
    &&& forall|k: int| 0 <= k < gap ==> #[trigger] text[p + k] as u32 == small(name[k])
    &&& gap < name.len() ==> text[p + gap] == '_' && 65 <= name[gap] as u32 <= 90 && name[gap
        - 1] as u32 >= 97
    &&& forall|k: int| gap <= k < name.len() ==> #[trigger] text[p + k + 1] as u32 == small(name[k])
}

/// A name starts with a prefix.
pub open spec fn starts_with(text: Seq<char>, prefix: Seq<char>) -> bool {
    prefix.len() <= text.len() && text.take(prefix.len() as int) == prefix
}

#[verifier::spinoff_prover]
proof fn lemma_int_binary_names(op: IntBinaryOp)
    ensures
        starts_with(op_text(NodeKind::IntBinaryOp(op)), "int."@),
        exists|gap: int|
            spells_small(
                op_text(NodeKind::IntBinaryOp(op)),
                4,
                bare_text(NodeKind::IntBinaryOp(op)),
                gap,
            ),
{
    reveal_strlit("int.");
    reveal_strlit("int.add");
    reveal_strlit("Add");
    reveal_strlit("int.and");
    reveal_strlit("And");
    reveal_strlit("int.or");
    reveal_strlit("Or");
    reveal_strlit("int.xor");
    reveal_strlit("Xor");
    reveal_strlit("int.div");
    reveal_strlit("Div");
    reveal_strlit("int.sdiv");
    reveal_strlit("Sdiv");
    reveal_strlit("int.rem");
    reveal_strlit("Rem");
    reveal_strlit("int.srem");
    reveal_strlit("Srem");
    reveal_strlit("int.shift_right");
    reveal_strlit("ShiftRight");
    reveal_strlit("int.sshift_right");
    reveal_strlit("SShiftRight");
    reveal_strlit("int.shift_left");
    reveal_strlit("ShiftLeft");
    reveal_strlit("int.mul");
    reveal_strlit("Mul");
    let text = op_text(NodeKind::IntBinaryOp(op));
    let name = bare_text(NodeKind::IntBinaryOp(op));
    assert(text.take(4) =~= "int."@);
    let gap: int = if op is ShiftRight || op is ShiftLeft {
        5
    } else if op is SShiftRight {
        6
    } else {
        name.len() as int
    };
    assert(spells_small(text, 4, name, gap));
}

#[verifier::spinoff_prover]
proof fn lemma_int_compare_names(op: IntCmpOp)
    ensures
        starts_with(op_text(NodeKind::IntCmpOp(op)), "icmp."@),
        exists|gap: int|
            spells_small(
                op_text(NodeKind::IntCmpOp(op)),
                5,
                bare_text(NodeKind::IntCmpOp(op)),
                gap,
            ),
{
    reveal_strlit("icmp.");
    reveal_strlit("icmp.equal");
    reveal_strlit("Equal");
    reveal_strlit("icmp.sless");
    reveal_strlit("Sless");
    reveal_strlit("icmp.less");
    reveal_strlit("Less");
    reveal_strlit("icmp.carry");
    reveal_strlit("Carry");
    reveal_strlit("icmp.scarry");
    reveal_strlit("Scarry");
    reveal_strlit("icmp.sborrow");
    reveal_strlit("Sborrow");
    let text = op_text(NodeKind::IntCmpOp(op));
    let name = bare_text(NodeKind::IntCmpOp(op));
    assert(text.take(5) =~= "icmp."@);
    let gap = name.len() as int;
    assert(spells_small(text, 5, name, gap));
}

#[verifier::spinoff_prover]
proof fn lemma_bool_binary_names(op: BoolBinaryOp)
    ensures
        starts_with(op_text(NodeKind::BoolBinaryOp(op)), "bool."@),
        exists|gap: int|
            spells_small(
                op_text(NodeKind::BoolBinaryOp(op)),
                5,
                bare_text(NodeKind::BoolBinaryOp(op)),
                gap,
            ),
{
    reveal_strlit("bool.");
    reveal_strlit("bool.and");
    reveal_strlit("And");
    reveal_strlit("bool.or");
    reveal_strlit("Or");
    reveal_strlit("bool.xor");
    reveal_strlit("Xor");
    let text = op_text(NodeKind::BoolBinaryOp(op));
    let name = bare_text(NodeKind::BoolBinaryOp(op));
    assert(text.take(5) =~= "bool."@);
    let gap = name.len() as int;
    assert(spells_small(text, 5, name, gap));
}

#[verifier::spinoff_prover]
proof fn lemma_float_binary_names(op: FloatBinaryOp)
    ensures
        starts_with(op_text(NodeKind::FloatBinaryOp(op)), "float."@),
        exists|gap: int|
            spells_small(
                op_text(NodeKind::FloatBinaryOp(op)),
                6,
                bare_text(NodeKind::FloatBinaryOp(op)),
                gap,
            ),
{
    reveal_strlit("float.");
    reveal_strlit("float.add");
    reveal_strlit("Add");
    reveal_strlit("float.mul");
    reveal_strlit("Mul");
    reveal_strlit("float.div");
    reveal_strlit("Div");
    let text = op_text(NodeKind::FloatBinaryOp(op));
    let name = bare_text(NodeKind::FloatBinaryOp(op));
    assert(text.take(6) =~= "float."@);
    let gap = name.len() as int;
    assert(spells_small(text, 6, name, gap));
}

#[verifier::spinoff_prover]
proof fn lemma_float_unary_names(op: FloatUnaryOp)
    ensures
        starts_with(op_text(NodeKind::FloatUnaryOp(op)), "float."@),
        exists|gap: int|
            spells_small(
                op_text(NodeKind::FloatUnaryOp(op)),
                6,
                bare_text(NodeKind::FloatUnaryOp(op)),
                gap,
            ),
{
    reveal_strlit("float.");
    reveal_strlit("float.neg");
    reveal_strlit("Neg");
    reveal_strlit("float.abs");
    reveal_strlit("Abs");
    reveal_strlit("float.sqrt");
    reveal_strlit("Sqrt");
    reveal_strlit("float.ceil");
    reveal_strlit("Ceil");
    reveal_strlit("float.floor");
    reveal_strlit("Floor");
    reveal_strlit("float.round");
    reveal_strlit("Round");
    let text = op_text(NodeKind::FloatUnaryOp(op));
    let name = bare_text(NodeKind::FloatUnaryOp(op));
    assert(text.take(6) =~= "float."@);
    let gap = name.len() as int;
    assert(spells_small(text, 6, name, gap));
}

#[verifier::spinoff_prover]
proof fn lemma_float_compare_names(op: FloatCmpOp)
    ensures
        starts_with(op_text(NodeKind::FloatCmpOp(op)), "fcmp."@),
        exists|gap: int|
            spells_small(
                op_text(NodeKind::FloatCmpOp(op)),
                5,
                bare_text(NodeKind::FloatCmpOp(op)),
                gap,
            ),
{
    reveal_strlit("fcmp.");
    reveal_strlit("fcmp.equal");
    reveal_strlit("Equal");
    reveal_strlit("fcmp.less");
    reveal_strlit("Less");
    let text = op_text(NodeKind::FloatCmpOp(op));
    let name = bare_text(NodeKind::FloatCmpOp(op));
    assert(text.take(5) =~= "fcmp."@);
    let gap = name.len() as int;
    assert(spells_small(text, 5, name, gap));
}

/// An operator prints as its family, a dot and the name that drawings label it
/// with, in small letters.
pub proof fn law_operators_print_as_they_are_labelled(kind: NodeKind)
    ensures
        kind is IntBinaryOp ==> starts_with(op_text(kind), "int."@) && exists|gap: int|
            spells_small(op_text(kind), 4, bare_text(kind), gap),
        kind is IntCmpOp ==> starts_with(op_text(kind), "icmp."@) && exists|gap: int|
            spells_small(op_text(kind), 5, bare_text(kind), gap),
        kind is BoolBinaryOp ==> starts_with(op_text(kind), "bool."@) && exists|gap: int|
            spells_small(op_text(kind), 5, bare_text(kind), gap),
        kind is FloatBinaryOp ==> starts_with(op_text(kind), "float."@) && exists|gap: int|
            spells_small(op_text(kind), 6, bare_text(kind), gap),
        kind is FloatUnaryOp ==> starts_with(op_text(kind), "float."@) && exists|gap: int|
            spells_small(op_text(kind), 6, bare_text(kind), gap),
        kind is FloatCmpOp ==> starts_with(op_text(kind), "fcmp."@) && exists|gap: int|
            spells_small(op_text(kind), 5, bare_text(kind), gap),
{
    match kind {
        NodeKind::IntBinaryOp(op) => lemma_int_binary_names(op),
        NodeKind::IntCmpOp(op) => lemma_int_compare_names(op),
        NodeKind::BoolBinaryOp(op) => lemma_bool_binary_names(op),
        NodeKind::FloatBinaryOp(op) => lemma_float_binary_names(op),
        NodeKind::FloatUnaryOp(op) => lemma_float_unary_names(op),
        NodeKind::FloatCmpOp(op) => lemma_float_compare_names(op),
        _ => {},
    }
}

/// An operator on signed numbers is named
/// like the one on unsigned numbers with an `s` before it.
#[verifier::spinoff_prover]
pub proof fn law_signed_operators_take_an_s()
    ensures
        op_text(NodeKind::IntBinaryOp(IntBinaryOp::Sdiv)) == "int.s"@ + op_text(
            NodeKind::IntBinaryOp(IntBinaryOp::Div),
        ).skip(4),
        op_text(NodeKind::IntBinaryOp(IntBinaryOp::Srem)) == "int.s"@ + op_text(
            NodeKind::IntBinaryOp(IntBinaryOp::Rem),
        ).skip(4),
        op_text(NodeKind::IntBinaryOp(IntBinaryOp::SShiftRight)) == "int.s"@ + op_text(
            NodeKind::IntBinaryOp(IntBinaryOp::ShiftRight),
        ).skip(4),
        op_text(NodeKind::IntCmpOp(IntCmpOp::Sless)) == "icmp.s"@ + op_text(
            NodeKind::IntCmpOp(IntCmpOp::Less),
        ).skip(5),
        op_text(NodeKind::IntCmpOp(IntCmpOp::Scarry)) == "icmp.s"@ + op_text(
            NodeKind::IntCmpOp(IntCmpOp::Carry),
        ).skip(5),
{
    reveal_strlit("int.s");
    reveal_strlit("icmp.s");
    reveal_strlit("int.div");
    reveal_strlit("int.sdiv");
    reveal_strlit("int.rem");
    reveal_strlit("int.srem");
    reveal_strlit("int.shift_right");
    reveal_strlit("int.sshift_right");
    reveal_strlit("icmp.less");
    reveal_strlit("icmp.sless");
    reveal_strlit("icmp.carry");
    reveal_strlit("icmp.scarry");
    assert("int.sdiv"@ =~= "int.s"@ + "int.div"@.skip(4));
    assert("int.srem"@ =~= "int.s"@ + "int.rem"@.skip(4));
    assert("int.sshift_right"@ =~= "int.s"@ + "int.shift_right"@.skip(4));
    assert("icmp.sless"@ =~= "icmp.s"@ + "icmp.less"@.skip(5));
    assert("icmp.scarry"@ =~= "icmp.s"@ + "icmp.carry"@.skip(5));
}

} // verus!
