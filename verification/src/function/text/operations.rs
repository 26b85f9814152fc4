//! The name of an operation says which kind and which operator it is.

use super::render::op_text;
use crate::node::{
    BoolBinaryOp, ExtendOp, FloatBinaryOp, FloatCmpOp, FloatUnaryOp, IntBinaryOp, IntCmpOp,
    NodeKind,
};
use vstd::prelude::*;

verus! {

/// The same kind with the same operator; constants, ids, spaces and
/// conventions aside.
pub open spec fn same_operation(a: NodeKind, b: NodeKind) -> bool {
    match (a, b) {
        (NodeKind::Entry, NodeKind::Entry) => true,
        (NodeKind::InitialMemory, NodeKind::InitialMemory) => true,
        (NodeKind::InitialVar(_), NodeKind::InitialVar(_)) => true,
        (NodeKind::FunctionArg { .. }, NodeKind::FunctionArg { .. }) => true,
        (NodeKind::Region, NodeKind::Region) => true,
        (NodeKind::ControlState, NodeKind::ControlState) => true,
        (NodeKind::MemPhi, NodeKind::MemPhi) => true,
        (NodeKind::Phi, NodeKind::Phi) => true,
        (NodeKind::If, NodeKind::If) => true,
        (NodeKind::Switch(_), NodeKind::Switch(_)) => true,
        (NodeKind::Call { .. }, NodeKind::Call { .. }) => true,
        (NodeKind::CallOther { .. }, NodeKind::CallOther { .. }) => true,
        (NodeKind::Return, NodeKind::Return) => true,
        (NodeKind::IndirectBranch, NodeKind::IndirectBranch) => true,
        (NodeKind::Unreachable, NodeKind::Unreachable) => true,
        (NodeKind::Load(_), NodeKind::Load(_)) => true,
        (NodeKind::Store(_), NodeKind::Store(_)) => true,
        (NodeKind::StackStore { .. }, NodeKind::StackStore { .. }) => true,
        (NodeKind::StackStorePhi { .. }, NodeKind::StackStorePhi { .. }) => true,
        (NodeKind::IntConst(_), NodeKind::IntConst(_)) => true,
        (NodeKind::FloatConst(_), NodeKind::FloatConst(_)) => true,
        (NodeKind::BoolConst(_), NodeKind::BoolConst(_)) => true,
        (NodeKind::IntUnaryOp(_), NodeKind::IntUnaryOp(_)) => true,
        (NodeKind::IntBinaryOp(x), NodeKind::IntBinaryOp(y)) => x == y,
        (NodeKind::IntCmpOp(x), NodeKind::IntCmpOp(y)) => x == y,
        (NodeKind::Truncate, NodeKind::Truncate) => true,
        (NodeKind::Popcount, NodeKind::Popcount) => true,
        (NodeKind::Lzcount, NodeKind::Lzcount) => true,
        (NodeKind::Extend(x), NodeKind::Extend(y)) => x == y,
        (NodeKind::CastToBool, NodeKind::CastToBool) => true,
        (NodeKind::CastToInt, NodeKind::CastToInt) => true,
        (NodeKind::CastToFloat, NodeKind::CastToFloat) => true,
        (NodeKind::BoolBinaryOp(x), NodeKind::BoolBinaryOp(y)) => x == y,
        (NodeKind::BoolUnaryOp(_), NodeKind::BoolUnaryOp(_)) => true,
        (NodeKind::FloatBinaryOp(x), NodeKind::FloatBinaryOp(y)) => x == y,
        (NodeKind::FloatUnaryOp(x), NodeKind::FloatUnaryOp(y)) => x == y,
        (NodeKind::FloatCmpOp(x), NodeKind::FloatCmpOp(y)) => x == y,
        (NodeKind::IntToFloat, NodeKind::IntToFloat) => true,
        (NodeKind::FloatToInt, NodeKind::FloatToInt) => true,
        (NodeKind::FloatToFloat, NodeKind::FloatToFloat) => true,
        (NodeKind::IntBitsToFloat, NodeKind::IntBitsToFloat) => true,
        (NodeKind::FloatBitsToInt, NodeKind::FloatBitsToInt) => true,
        (NodeKind::SegmentOp { .. }, NodeKind::SegmentOp { .. }) => true,
        (NodeKind::CPoolRef, NodeKind::CPoolRef) => true,
        (NodeKind::New, NodeKind::New) => true,
        (NodeKind::MemProject, NodeKind::MemProject) => true,
        (NodeKind::MemUnion, NodeKind::MemUnion) => true,
        _ => false,
    }
}

/// Length, first and last two characters of a name as one number.
spec fn mark(s: Seq<char>) -> int {
    ((s.len() * 256 + s[0] as u32 as int) * 256 + s[s.len() - 1] as u32 as int) * 256 + s[s.len()
        - 2] as u32 as int
}

/// The mark of the name of each operation.
spec fn op_code(kind: NodeKind) -> int {
    match kind {
        NodeKind::Entry => 90536306,
        NodeKind::InitialMemory => 241793394,
        NodeKind::InitialVar(_) => 191459937,
        NodeKind::FunctionArg { .. } => 208037746,
        NodeKind::Region => 108162671,
        NodeKind::ControlState => 224617844,
        NodeKind::MemPhi => 107833704,
        NodeKind::Phi => 57698664,
        NodeKind::If => 40461929,
        NodeKind::Switch(_) => 108226659,
        NodeKind::Call { .. } => 73624684,
        NodeKind::CallOther { .. } => 157512293,
        NodeKind::Return => 108162674,
        NodeKind::IndirectBranch => 258566243,
        NodeKind::Unreachable => 192243052,
        NodeKind::Load(_) => 74212449,
        NodeKind::Store(_) => 91448690,
        NodeKind::StackStore { .. } => 192111986,
        NodeKind::StackStorePhi { .. } => 259221864,
        NodeKind::IntConst(_) => 107574387,
        NodeKind::FloatConst(_) => 107377779,
        NodeKind::BoolConst(_) => 107115635,
        NodeKind::IntUnaryOp(_) => 124348261,
        NodeKind::IntBinaryOp(op) => match op {
            IntBinaryOp::Add => 124347492,
            IntBinaryOp::And => 124347502,
            IntBinaryOp::Or => 107573871,
            IntBinaryOp::Xor => 124351087,
            IntBinaryOp::Div => 124352105,
            IntBinaryOp::Sdiv => 141129321,
            IntBinaryOp::Rem => 124349797,
            IntBinaryOp::Srem => 141127013,
            IntBinaryOp::ShiftRight => 258569320,
            IntBinaryOp::SShiftRight => 275346536,
            IntBinaryOp::ShiftLeft => 241792102,
            IntBinaryOp::Mul => 124349557,
        },
        NodeKind::IntCmpOp(op) => match op {
            IntCmpOp::Equal => 174681185,
            IntCmpOp::Sless => 174682995,
            IntCmpOp::Less => 157905779,
            IntCmpOp::Carry => 174684530,
            IntCmpOp::Scarry => 191461746,
            IntCmpOp::Sborrow => 208238447,
        },
        NodeKind::Truncate => 141845876,
        NodeKind::Popcount => 141587566,
        NodeKind::Lzcount => 124548206,
        NodeKind::Extend(op) => match op {
            ExtendOp::ZeroExtend => 191197042,
            ExtendOp::SignExtend => 191196775,
        },
        NodeKind::CastToBool => 157510767,
        NodeKind::CastToInt => 140735598,
        NodeKind::CastToFloat => 174290017,
        NodeKind::BoolBinaryOp(op) => match op {
            BoolBinaryOp::And => 140665966,
            BoolBinaryOp::Or => 123892335,
            BoolBinaryOp::Xor => 140669551,
        },
        NodeKind::BoolUnaryOp(_) => 140670063,
        NodeKind::FloatBinaryOp(op) => match op {
            FloatBinaryOp::Add => 157705316,
            FloatBinaryOp::Mul => 157707381,
            FloatBinaryOp::Div => 157709929,
        },
        NodeKind::FloatUnaryOp(op) => match op {
            FloatUnaryOp::Neg => 157706085,
            FloatUnaryOp::Abs => 157709154,
            FloatUnaryOp::Sqrt => 174486642,
            FloatUnaryOp::Ceil => 174484585,
            FloatUnaryOp::Floor => 191263343,
            FloatUnaryOp::Round => 191259758,
        },
        NodeKind::FloatCmpOp(op) => match op {
            FloatCmpOp::Equal => 174484577,
            FloatCmpOp::Less => 157709171,
        },
        NodeKind::IntToFloat => 208237665,
        NodeKind::FloatToInt => 208041070,
        NodeKind::FloatToFloat => 241595489,
        NodeKind::IntBitsToFloat => 292123745,
        NodeKind::FloatBitsToInt => 291927150,
        NodeKind::SegmentOp { .. } => 175337583,
        NodeKind::CPoolRef => 157509221,
        NodeKind::New => 57571173,
        NodeKind::MemProject => 191722595,
        NodeKind::MemUnion => 158166639,
    }
}

#[verifier::rlimit(100)]
#[verifier::spinoff_prover]
proof fn lemma_op_code(kind: NodeKind)
    ensures
        mark(op_text(kind)) == op_code(kind),
{
    reveal_strlit("entry");
    reveal_strlit("initial_memory");
    reveal_strlit("initial_var");
    reveal_strlit("function_arg");
    reveal_strlit("region");
    reveal_strlit("control_state");
    reveal_strlit("memphi");
    reveal_strlit("phi");
    reveal_strlit("if");
    reveal_strlit("switch");
    reveal_strlit("call");
    reveal_strlit("callother");
    reveal_strlit("return");
    reveal_strlit("indirect_branch");
    reveal_strlit("unreachable");
    reveal_strlit("load");
    reveal_strlit("store");
    reveal_strlit("stack_store");
    reveal_strlit("stack_store_phi");
    reveal_strlit("iconst");
    reveal_strlit("fconst");
    reveal_strlit("bconst");
    reveal_strlit("int.neg");
    reveal_strlit("int.add");
    reveal_strlit("int.and");
    reveal_strlit("int.or");
    reveal_strlit("int.xor");
    reveal_strlit("int.div");
    reveal_strlit("int.sdiv");
    reveal_strlit("int.rem");
    reveal_strlit("int.srem");
    reveal_strlit("int.shift_right");
    reveal_strlit("int.sshift_right");
    reveal_strlit("int.shift_left");
    reveal_strlit("int.mul");
    reveal_strlit("icmp.equal");
    reveal_strlit("icmp.sless");
    reveal_strlit("icmp.less");
    reveal_strlit("icmp.carry");
    reveal_strlit("icmp.scarry");
    reveal_strlit("icmp.sborrow");
    reveal_strlit("truncate");
    reveal_strlit("popcount");
    reveal_strlit("lzcount");
    reveal_strlit("extend.zero");
    reveal_strlit("extend.sign");
    reveal_strlit("cast.bool");
    reveal_strlit("cast.int");
    reveal_strlit("cast.float");
    reveal_strlit("bool.and");
    reveal_strlit("bool.or");
    reveal_strlit("bool.xor");
    reveal_strlit("bool.not");
    reveal_strlit("float.add");
    reveal_strlit("float.mul");
    reveal_strlit("float.div");
    reveal_strlit("float.neg");
    reveal_strlit("float.abs");
    reveal_strlit("float.sqrt");
    reveal_strlit("float.ceil");
    reveal_strlit("float.floor");
    reveal_strlit("float.round");
    reveal_strlit("fcmp.equal");
    reveal_strlit("fcmp.less");
    reveal_strlit("int_to_float");
    reveal_strlit("float_to_int");
    reveal_strlit("float_to_float");
    reveal_strlit("int_bits_to_float");
    reveal_strlit("float_bits_to_int");
    reveal_strlit("segment_op");
    reveal_strlit("cpool_ref");
    reveal_strlit("new");
    reveal_strlit("mem_project");
    reveal_strlit("mem_union");
}

/// What a mark says of a kind.
spec fn decoded(code: int, kind: NodeKind) -> bool {
    if code == 90536306 {
        kind is Entry
    } else if code == 241793394 {
        kind is InitialMemory
    } else if code == 191459937 {
        kind is InitialVar
    } else if code == 208037746 {
        kind is FunctionArg
    } else if code == 108162671 {
        kind is Region
    } else if code == 224617844 {
        kind is ControlState
    } else if code == 107833704 {
        kind is MemPhi
    } else if code == 57698664 {
        kind is Phi
    } else if code == 40461929 {
        kind is If
    } else if code == 108226659 {
        kind is Switch
    } else if code == 73624684 {
        kind is Call
    } else if code == 157512293 {
        kind is CallOther
    } else if code == 108162674 {
        kind is Return
    } else if code == 258566243 {
        kind is IndirectBranch
    } else if code == 192243052 {
        kind is Unreachable
    } else if code == 74212449 {
        kind is Load
    } else if code == 91448690 {
        kind is Store
    } else if code == 192111986 {
        kind is StackStore
    } else if code == 259221864 {
        kind is StackStorePhi
    } else if code == 107574387 {
        kind is IntConst
    } else if code == 107377779 {
        kind is FloatConst
    } else if code == 107115635 {
        kind is BoolConst
    } else if code == 124348261 {
        kind is IntUnaryOp
    } else if code == 124347492 {
        kind == NodeKind::IntBinaryOp(IntBinaryOp::Add)
    } else if code == 124347502 {
        kind == NodeKind::IntBinaryOp(IntBinaryOp::And)
    } else if code == 107573871 {
        kind == NodeKind::IntBinaryOp(IntBinaryOp::Or)
    } else if code == 124351087 {
        kind == NodeKind::IntBinaryOp(IntBinaryOp::Xor)
    } else if code == 124352105 {
        kind == NodeKind::IntBinaryOp(IntBinaryOp::Div)
    } else if code == 141129321 {
        kind == NodeKind::IntBinaryOp(IntBinaryOp::Sdiv)
    } else if code == 124349797 {
        kind == NodeKind::IntBinaryOp(IntBinaryOp::Rem)
    } else if code == 141127013 {
        kind == NodeKind::IntBinaryOp(IntBinaryOp::Srem)
    } else if code == 258569320 {
        kind == NodeKind::IntBinaryOp(IntBinaryOp::ShiftRight)
    } else if code == 275346536 {
        kind == NodeKind::IntBinaryOp(IntBinaryOp::SShiftRight)
    } else if code == 241792102 {
        kind == NodeKind::IntBinaryOp(IntBinaryOp::ShiftLeft)
    } else if code == 124349557 {
        kind == NodeKind::IntBinaryOp(IntBinaryOp::Mul)
    } else if code == 174681185 {
        kind == NodeKind::IntCmpOp(IntCmpOp::Equal)
    } else if code == 174682995 {
        kind == NodeKind::IntCmpOp(IntCmpOp::Sless)
    } else if code == 157905779 {
        kind == NodeKind::IntCmpOp(IntCmpOp::Less)
    } else if code == 174684530 {
        kind == NodeKind::IntCmpOp(IntCmpOp::Carry)
    } else if code == 191461746 {
        kind == NodeKind::IntCmpOp(IntCmpOp::Scarry)
    } else if code == 208238447 {
        kind == NodeKind::IntCmpOp(IntCmpOp::Sborrow)
    } else if code == 141845876 {
        kind is Truncate
    } else if code == 141587566 {
        kind is Popcount
    } else if code == 124548206 {
        kind is Lzcount
    } else if code == 191197042 {
        kind == NodeKind::Extend(ExtendOp::ZeroExtend)
    } else if code == 191196775 {
        kind == NodeKind::Extend(ExtendOp::SignExtend)
    } else if code == 157510767 {
        kind is CastToBool
    } else if code == 140735598 {
        kind is CastToInt
    } else if code == 174290017 {
        kind is CastToFloat
    } else if code == 140665966 {
        kind == NodeKind::BoolBinaryOp(BoolBinaryOp::And)
    } else if code == 123892335 {
        kind == NodeKind::BoolBinaryOp(BoolBinaryOp::Or)
    } else if code == 140669551 {
        kind == NodeKind::BoolBinaryOp(BoolBinaryOp::Xor)
    } else if code == 140670063 {
        kind is BoolUnaryOp
    } else if code == 157705316 {
        kind == NodeKind::FloatBinaryOp(FloatBinaryOp::Add)
    } else if code == 157707381 {
        kind == NodeKind::FloatBinaryOp(FloatBinaryOp::Mul)
    } else if code == 157709929 {
        kind == NodeKind::FloatBinaryOp(FloatBinaryOp::Div)
    } else if code == 157706085 {
        kind == NodeKind::FloatUnaryOp(FloatUnaryOp::Neg)
    } else if code == 157709154 {
        kind == NodeKind::FloatUnaryOp(FloatUnaryOp::Abs)
    } else if code == 174486642 {
        kind == NodeKind::FloatUnaryOp(FloatUnaryOp::Sqrt)
    } else if code == 174484585 {
        kind == NodeKind::FloatUnaryOp(FloatUnaryOp::Ceil)
    } else if code == 191263343 {
        kind == NodeKind::FloatUnaryOp(FloatUnaryOp::Floor)
    } else if code == 191259758 {
        kind == NodeKind::FloatUnaryOp(FloatUnaryOp::Round)
    } else if code == 174484577 {
        kind == NodeKind::FloatCmpOp(FloatCmpOp::Equal)
    } else if code == 157709171 {
        kind == NodeKind::FloatCmpOp(FloatCmpOp::Less)
    } else if code == 208237665 {
        kind is IntToFloat
    } else if code == 208041070 {
        kind is FloatToInt
    } else if code == 241595489 {
        kind is FloatToFloat
    } else if code == 292123745 {
        kind is IntBitsToFloat
    } else if code == 291927150 {
        kind is FloatBitsToInt
    } else if code == 175337583 {
        kind is SegmentOp
    } else if code == 157509221 {
        kind is CPoolRef
    } else if code == 57571173 {
        kind is New
    } else if code == 191722595 {
        kind is MemProject
    } else if code == 158166639 {
        kind is MemUnion
    } else {
        false
    }
}

#[verifier::rlimit(100)]
#[verifier::spinoff_prover]
proof fn lemma_decoded(kind: NodeKind)
    ensures
        decoded(op_code(kind), kind),
{
    match kind {
        NodeKind::Entry => {
            assert(decoded(90536306, kind));
        },
        NodeKind::InitialMemory => {
            assert(decoded(241793394, kind));
        },
        NodeKind::InitialVar(_) => {
            assert(decoded(191459937, kind));
        },
        NodeKind::FunctionArg { .. } => {
            assert(decoded(208037746, kind));
        },
        NodeKind::Region => {
            assert(decoded(108162671, kind));
        },
        NodeKind::ControlState => {
            assert(decoded(224617844, kind));
        },
        NodeKind::MemPhi => {
            assert(decoded(107833704, kind));
        },
        NodeKind::Phi => {
            assert(decoded(57698664, kind));
        },
        NodeKind::If => {
            assert(decoded(40461929, kind));
        },
        NodeKind::Switch(_) => {
            assert(decoded(108226659, kind));
        },
        NodeKind::Call { .. } => {
            assert(decoded(73624684, kind));
        },
        NodeKind::CallOther { .. } => {
            assert(decoded(157512293, kind));
        },
        NodeKind::Return => {
            assert(decoded(108162674, kind));
        },
        NodeKind::IndirectBranch => {
            assert(decoded(258566243, kind));
        },
        NodeKind::Unreachable => {
            assert(decoded(192243052, kind));
        },
        NodeKind::Load(_) => {
            assert(decoded(74212449, kind));
        },
        NodeKind::Store(_) => {
            assert(decoded(91448690, kind));
        },
        NodeKind::StackStore { .. } => {
            assert(decoded(192111986, kind));
        },
        NodeKind::StackStorePhi { .. } => {
            assert(decoded(259221864, kind));
        },
        NodeKind::IntConst(_) => {
            assert(decoded(107574387, kind));
        },
        NodeKind::FloatConst(_) => {
            assert(decoded(107377779, kind));
        },
        NodeKind::BoolConst(_) => {
            assert(decoded(107115635, kind));
        },
        NodeKind::IntUnaryOp(_) => {
            assert(decoded(124348261, kind));
        },
        NodeKind::IntBinaryOp(op) => match op {
            IntBinaryOp::Add => {
            assert(decoded(124347492, kind));
        },
            IntBinaryOp::And => {
            assert(decoded(124347502, kind));
        },
            IntBinaryOp::Or => {
            assert(decoded(107573871, kind));
        },
            IntBinaryOp::Xor => {
            assert(decoded(124351087, kind));
        },
            IntBinaryOp::Div => {
            assert(decoded(124352105, kind));
        },
            IntBinaryOp::Sdiv => {
            assert(decoded(141129321, kind));
        },
            IntBinaryOp::Rem => {
            assert(decoded(124349797, kind));
        },
            IntBinaryOp::Srem => {
            assert(decoded(141127013, kind));
        },
            IntBinaryOp::ShiftRight => {
            assert(decoded(258569320, kind));
        },
            IntBinaryOp::SShiftRight => {
            assert(decoded(275346536, kind));
        },
            IntBinaryOp::ShiftLeft => {
            assert(decoded(241792102, kind));
        },
            IntBinaryOp::Mul => {
            assert(decoded(124349557, kind));
        },
        },
        NodeKind::IntCmpOp(op) => match op {
            IntCmpOp::Equal => {
            assert(decoded(174681185, kind));
        },
            IntCmpOp::Sless => {
            assert(decoded(174682995, kind));
        },
            IntCmpOp::Less => {
            assert(decoded(157905779, kind));
        },
            IntCmpOp::Carry => {
            assert(decoded(174684530, kind));
        },
            IntCmpOp::Scarry => {
            assert(decoded(191461746, kind));
        },
            IntCmpOp::Sborrow => {
            assert(decoded(208238447, kind));
        },
        },
        NodeKind::Truncate => {
            assert(decoded(141845876, kind));
        },
        NodeKind::Popcount => {
            assert(decoded(141587566, kind));
        },
        NodeKind::Lzcount => {
            assert(decoded(124548206, kind));
        },
        NodeKind::Extend(op) => match op {
            ExtendOp::ZeroExtend => {
            assert(decoded(191197042, kind));
        },
            ExtendOp::SignExtend => {
            assert(decoded(191196775, kind));
        },
        },
        NodeKind::CastToBool => {
            assert(decoded(157510767, kind));
        },
        NodeKind::CastToInt => {
            assert(decoded(140735598, kind));
        },
        NodeKind::CastToFloat => {
            assert(decoded(174290017, kind));
        },
        NodeKind::BoolBinaryOp(op) => match op {
            BoolBinaryOp::And => {
            assert(decoded(140665966, kind));
        },
            BoolBinaryOp::Or => {
            assert(decoded(123892335, kind));
        },
            BoolBinaryOp::Xor => {
            assert(decoded(140669551, kind));
        },
        },
        NodeKind::BoolUnaryOp(_) => {
            assert(decoded(140670063, kind));
        },
        NodeKind::FloatBinaryOp(op) => match op {
            FloatBinaryOp::Add => {
            assert(decoded(157705316, kind));
        },
            FloatBinaryOp::Mul => {
            assert(decoded(157707381, kind));
        },
            FloatBinaryOp::Div => {
            assert(decoded(157709929, kind));
        },
        },
        NodeKind::FloatUnaryOp(op) => match op {
            FloatUnaryOp::Neg => {
            assert(decoded(157706085, kind));
        },
            FloatUnaryOp::Abs => {
            assert(decoded(157709154, kind));
        },
            FloatUnaryOp::Sqrt => {
            assert(decoded(174486642, kind));
        },
            FloatUnaryOp::Ceil => {
            assert(decoded(174484585, kind));
        },
            FloatUnaryOp::Floor => {
            assert(decoded(191263343, kind));
        },
            FloatUnaryOp::Round => {
            assert(decoded(191259758, kind));
        },
        },
        NodeKind::FloatCmpOp(op) => match op {
            FloatCmpOp::Equal => {
            assert(decoded(174484577, kind));
        },
            FloatCmpOp::Less => {
            assert(decoded(157709171, kind));
        },
        },
        NodeKind::IntToFloat => {
            assert(decoded(208237665, kind));
        },
        NodeKind::FloatToInt => {
            assert(decoded(208041070, kind));
        },
        NodeKind::FloatToFloat => {
            assert(decoded(241595489, kind));
        },
        NodeKind::IntBitsToFloat => {
            assert(decoded(292123745, kind));
        },
        NodeKind::FloatBitsToInt => {
            assert(decoded(291927150, kind));
        },
        NodeKind::SegmentOp { .. } => {
            assert(decoded(175337583, kind));
        },
        NodeKind::CPoolRef => {
            assert(decoded(157509221, kind));
        },
        NodeKind::New => {
            assert(decoded(57571173, kind));
        },
        NodeKind::MemProject => {
            assert(decoded(191722595, kind));
        },
        NodeKind::MemUnion => {
            assert(decoded(158166639, kind));
        },
    }
}

#[verifier::rlimit(100)]
#[verifier::spinoff_prover]
proof fn lemma_decoded_same(code: int, a: NodeKind, b: NodeKind)
    requires
        decoded(code, a),
        decoded(code, b),
    ensures
        same_operation(a, b),
{
}

/// Two nodes print under one operation name exactly when they have the same
/// kind and the same operator; payloads never change the name.
pub proof fn law_op_name_identifies_operation(a: NodeKind, b: NodeKind)
    ensures
        op_text(a) == op_text(b) <==> same_operation(a, b),
{
    if op_text(a) == op_text(b) {
        lemma_op_code(a);
        lemma_op_code(b);
        lemma_decoded(a);
        lemma_decoded(b);
        lemma_decoded_same(op_code(a), a, b);
    }
}

} // verus!
