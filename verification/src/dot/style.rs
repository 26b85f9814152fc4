//! How nodes and edges look.

use crate::node::{
    BoolBinaryOp, ExtendOp, FloatBinaryOp, FloatCmpOp, FloatUnaryOp, IntBinaryOp, IntCmpOp,
    NodeKind, ValueType,
};
use vstd::prelude::*;

verus! {

/// What an input is to the node that reads it.
#[derive(Clone, Copy, PartialEq, Eq, Structural, Debug)]
pub enum SlotRole {
    Control,
    Memory,
    Phi,
    In,
    Lhs,
    Rhs,
    Val,
    Ret,
    Addr,
    Off,
    Data,
    Arg,
    Ref,
    Target,
    Seg,
    Sp,
    Cond,
}

/// The outline of a node.
pub open spec fn shape_text(kind: NodeKind) -> Seq<char> {
    match kind {
        NodeKind::Entry
        | NodeKind::InitialMemory
        | NodeKind::InitialVar(_)
        | NodeKind::FunctionArg { .. } => "Mdiamond"@,
        NodeKind::Region
        | NodeKind::ControlState => "invhouse"@,
        NodeKind::Phi
        | NodeKind::MemPhi => "house"@,
        NodeKind::If => "diamond"@,
        NodeKind::Load(_)
        | NodeKind::Store(_)
        | NodeKind::StackStore { .. }
        | NodeKind::StackStorePhi { .. } => "box3d"@,
        NodeKind::Call { .. } => "rarrow"@,
        NodeKind::CallOther { .. } => "doubleoctagon"@,
        NodeKind::SegmentOp { .. } => "parallelogram"@,
        NodeKind::CPoolRef => "folder"@,
        NodeKind::New => "component"@,
        NodeKind::Return
        | NodeKind::IndirectBranch => "doublecircle"@,
        NodeKind::IntConst(_)
        | NodeKind::BoolConst(_)
        | NodeKind::FloatConst(_) => "ellipse"@,
        _ => "box"@,
    }
}

/// The outline of a node.
pub fn node_shape(kind: &NodeKind) -> (r: &'static str)
    ensures
        r@ == shape_text(*kind),
{
    match *kind {
        NodeKind::Entry
        | NodeKind::InitialMemory
        | NodeKind::InitialVar(_)
        | NodeKind::FunctionArg { .. } => "Mdiamond",
        NodeKind::Region
        | NodeKind::ControlState => "invhouse",
        NodeKind::Phi
        | NodeKind::MemPhi => "house",
        NodeKind::If => "diamond",
        NodeKind::Load(_)
        | NodeKind::Store(_)
        | NodeKind::StackStore { .. }
        | NodeKind::StackStorePhi { .. } => "box3d",
        NodeKind::Call { .. } => "rarrow",
        NodeKind::CallOther { .. } => "doubleoctagon",
        NodeKind::SegmentOp { .. } => "parallelogram",
        NodeKind::CPoolRef => "folder",
        NodeKind::New => "component",
        NodeKind::Return
        | NodeKind::IndirectBranch => "doublecircle",
        NodeKind::IntConst(_)
        | NodeKind::BoolConst(_)
        | NodeKind::FloatConst(_) => "ellipse",
        _ => "box",
    }
}

/// The fill of a node.
pub open spec fn fill_text(kind: NodeKind) -> Seq<char> {
    match kind {
        NodeKind::Entry
        | NodeKind::InitialMemory
        | NodeKind::InitialVar(_)
        | NodeKind::FunctionArg { .. } => "\"#1a3a5c\""@,
        NodeKind::Region
        | NodeKind::ControlState => "\"#2a1a4a\""@,
        NodeKind::Phi
        | NodeKind::MemPhi => "\"#163030\""@,
        NodeKind::If => "\"#3a2a10\""@,
        NodeKind::Load(_)
        | NodeKind::Store(_) => "\"#102030\""@,
        NodeKind::StackStore { .. }
        | NodeKind::StackStorePhi { .. } => "\"#20182a\""@,
        NodeKind::Call { .. } => "\"#3a1010\""@,
        NodeKind::CallOther { .. } => "\"#3a2810\""@,
        NodeKind::SegmentOp { .. } => "\"#10283a\""@,
        NodeKind::CPoolRef => "\"#2a1a3a\""@,
        NodeKind::New => "\"#103a2a\""@,
        NodeKind::Return
        | NodeKind::IndirectBranch => "\"#103a10\""@,
        NodeKind::FloatConst(_)
        | NodeKind::FloatBinaryOp(_)
        | NodeKind::FloatUnaryOp(_)
        | NodeKind::FloatCmpOp(_) => "\"#1a3020\""@,
        NodeKind::IntToFloat
        | NodeKind::FloatToInt
        | NodeKind::FloatToFloat
        | NodeKind::IntBitsToFloat
        | NodeKind::FloatBitsToInt
        | NodeKind::CastToFloat => "\"#302018\""@,
        _ => "\"#2d2d2d\""@,
    }
}

/// The fill of a node.
pub fn node_fillcolor(kind: &NodeKind) -> (r: &'static str)
    ensures
        r@ == fill_text(*kind),
{
    match *kind {
        NodeKind::Entry
        | NodeKind::InitialMemory
        | NodeKind::InitialVar(_)
        | NodeKind::FunctionArg { .. } => "\"#1a3a5c\"",
        NodeKind::Region
        | NodeKind::ControlState => "\"#2a1a4a\"",
        NodeKind::Phi
        | NodeKind::MemPhi => "\"#163030\"",
        NodeKind::If => "\"#3a2a10\"",
        NodeKind::Load(_)
        | NodeKind::Store(_) => "\"#102030\"",
        NodeKind::StackStore { .. }
        | NodeKind::StackStorePhi { .. } => "\"#20182a\"",
        NodeKind::Call { .. } => "\"#3a1010\"",
        NodeKind::CallOther { .. } => "\"#3a2810\"",
        NodeKind::SegmentOp { .. } => "\"#10283a\"",
        NodeKind::CPoolRef => "\"#2a1a3a\"",
        NodeKind::New => "\"#103a2a\"",
        NodeKind::Return
        | NodeKind::IndirectBranch => "\"#103a10\"",
        NodeKind::FloatConst(_)
        | NodeKind::FloatBinaryOp(_)
        | NodeKind::FloatUnaryOp(_)
        | NodeKind::FloatCmpOp(_) => "\"#1a3020\"",
        NodeKind::IntToFloat
        | NodeKind::FloatToInt
        | NodeKind::FloatToFloat
        | NodeKind::IntBitsToFloat
        | NodeKind::FloatBitsToInt
        | NodeKind::CastToFloat => "\"#302018\"",
        _ => "\"#2d2d2d\"",
    }
}

/// The colour of an edge.
pub open spec fn role_text(role: SlotRole) -> Seq<char> {
    match role {
        SlotRole::Control => "\"#00cccc\""@,
        SlotRole::Memory => "\"#cc88aa\""@,
        SlotRole::Phi
        | SlotRole::In => "\"#dddddd\""@,
        SlotRole::Lhs => "\"#4488ff\""@,
        SlotRole::Rhs => "\"#ff4444\""@,
        SlotRole::Val
        | SlotRole::Ret => "\"#88cc88\""@,
        SlotRole::Addr
        | SlotRole::Off => "\"#cc88ff\""@,
        SlotRole::Data
        | SlotRole::Arg
        | SlotRole::Ref => "\"#ff8800\""@,
        SlotRole::Target
        | SlotRole::Seg
        | SlotRole::Sp => "\"#ffdd44\""@,
        SlotRole::Cond => "\"#ff44ff\""@,
    }
}

/// The colour of an edge.
pub fn role_color(role: SlotRole) -> (r: &'static str)
    ensures
        r@ == role_text(role),
{
    match role {
        SlotRole::Control => "\"#00cccc\"",
        SlotRole::Memory => "\"#cc88aa\"",
        SlotRole::Phi
        | SlotRole::In => "\"#dddddd\"",
        SlotRole::Lhs => "\"#4488ff\"",
        SlotRole::Rhs => "\"#ff4444\"",
        SlotRole::Val
        | SlotRole::Ret => "\"#88cc88\"",
        SlotRole::Addr
        | SlotRole::Off => "\"#cc88ff\"",
        SlotRole::Data
        | SlotRole::Arg
        | SlotRole::Ref => "\"#ff8800\"",
        SlotRole::Target
        | SlotRole::Seg
        | SlotRole::Sp => "\"#ffdd44\"",
        SlotRole::Cond => "\"#ff44ff\"",
    }
}

/// The label of an edge.
pub open spec fn role_name_text(role: SlotRole) -> Seq<char> {
    match role {
        SlotRole::Control => "ctrl"@,
        SlotRole::Memory => "mem"@,
        SlotRole::Phi => "phi"@,
        SlotRole::In => "in"@,
        SlotRole::Lhs => "lhs"@,
        SlotRole::Rhs => "rhs"@,
        SlotRole::Val => "val"@,
        SlotRole::Ret => "ret"@,
        SlotRole::Addr => "addr"@,
        SlotRole::Off => "off"@,
        SlotRole::Data => "data"@,
        SlotRole::Arg => "arg"@,
        SlotRole::Ref => "ref"@,
        SlotRole::Target => "target"@,
        SlotRole::Seg => "seg"@,
        SlotRole::Sp => "sp"@,
        SlotRole::Cond => "cond"@,
    }
}

/// The label of an edge.
pub fn role_name(role: SlotRole) -> (r: &'static str)
    ensures
        r@ == role_name_text(role),
{
    match role {
        SlotRole::Control => "ctrl",
        SlotRole::Memory => "mem",
        SlotRole::Phi => "phi",
        SlotRole::In => "in",
        SlotRole::Lhs => "lhs",
        SlotRole::Rhs => "rhs",
        SlotRole::Val => "val",
        SlotRole::Ret => "ret",
        SlotRole::Addr => "addr",
        SlotRole::Off => "off",
        SlotRole::Data => "data",
        SlotRole::Arg => "arg",
        SlotRole::Ref => "ref",
        SlotRole::Target => "target",
        SlotRole::Seg => "seg",
        SlotRole::Sp => "sp",
        SlotRole::Cond => "cond",
    }
}

/// The bare name of what a node does.
pub open spec fn bare_text(kind: NodeKind) -> Seq<char> {
    match kind {
        NodeKind::Entry => "Entry"@,
        NodeKind::InitialMemory => "InitialMemory"@,
        NodeKind::InitialVar(_) => "InitialVar"@,
        NodeKind::FunctionArg { .. } => "FunctionArg"@,
        NodeKind::Region => "Region"@,
        NodeKind::ControlState => "ControlState"@,
        NodeKind::MemPhi => "MemPhi"@,
        NodeKind::Phi => "Phi"@,
        NodeKind::If => "If"@,
        NodeKind::Switch(_) => "Switch"@,
        NodeKind::Call { .. } => "Call"@,
        NodeKind::CallOther { .. } => "CallOther"@,
        NodeKind::Return => "Return"@,
        NodeKind::IndirectBranch => "IndirectBranch"@,
        NodeKind::Unreachable => "Unreachable"@,
        NodeKind::Load(_) => "Load"@,
        NodeKind::Store(_) => "Store"@,
        NodeKind::StackStore { .. } => "StackStore"@,
        NodeKind::StackStorePhi { .. } => "StackStorePhi"@,
        NodeKind::IntConst(_) => "IntConst"@,
        NodeKind::FloatConst(_) => "FloatConst"@,
        NodeKind::BoolConst(_) => "BoolConst"@,
        NodeKind::IntUnaryOp(_) => "Neg"@,
        NodeKind::IntBinaryOp(IntBinaryOp::Add) => "Add"@,
        NodeKind::IntBinaryOp(IntBinaryOp::And) => "And"@,
        NodeKind::IntBinaryOp(IntBinaryOp::Or) => "Or"@,
        NodeKind::IntBinaryOp(IntBinaryOp::Xor) => "Xor"@,
        NodeKind::IntBinaryOp(IntBinaryOp::Div) => "Div"@,
        NodeKind::IntBinaryOp(IntBinaryOp::Sdiv) => "Sdiv"@,
        NodeKind::IntBinaryOp(IntBinaryOp::Rem) => "Rem"@,
        NodeKind::IntBinaryOp(IntBinaryOp::Srem) => "Srem"@,
        NodeKind::IntBinaryOp(IntBinaryOp::ShiftRight) => "ShiftRight"@,
        NodeKind::IntBinaryOp(IntBinaryOp::SShiftRight) => "SShiftRight"@,
        NodeKind::IntBinaryOp(IntBinaryOp::ShiftLeft) => "ShiftLeft"@,
        NodeKind::IntBinaryOp(IntBinaryOp::Mul) => "Mul"@,
        NodeKind::IntCmpOp(IntCmpOp::Equal) => "Equal"@,
        NodeKind::IntCmpOp(IntCmpOp::Sless) => "Sless"@,
        NodeKind::IntCmpOp(IntCmpOp::Less) => "Less"@,
        NodeKind::IntCmpOp(IntCmpOp::Carry) => "Carry"@,
        NodeKind::IntCmpOp(IntCmpOp::Scarry) => "Scarry"@,
        NodeKind::IntCmpOp(IntCmpOp::Sborrow) => "Sborrow"@,
        NodeKind::Extend(ExtendOp::ZeroExtend) => "ZeroExtend"@,
        NodeKind::Extend(ExtendOp::SignExtend) => "SignExtend"@,
        NodeKind::BoolBinaryOp(BoolBinaryOp::And) => "And"@,
        NodeKind::BoolBinaryOp(BoolBinaryOp::Or) => "Or"@,
        NodeKind::BoolBinaryOp(BoolBinaryOp::Xor) => "Xor"@,
        NodeKind::FloatBinaryOp(FloatBinaryOp::Add) => "Add"@,
        NodeKind::FloatBinaryOp(FloatBinaryOp::Mul) => "Mul"@,
        NodeKind::FloatBinaryOp(FloatBinaryOp::Div) => "Div"@,
        NodeKind::FloatUnaryOp(FloatUnaryOp::Neg) => "Neg"@,
        NodeKind::FloatUnaryOp(FloatUnaryOp::Abs) => "Abs"@,
        NodeKind::FloatUnaryOp(FloatUnaryOp::Sqrt) => "Sqrt"@,
        NodeKind::FloatUnaryOp(FloatUnaryOp::Ceil) => "Ceil"@,
        NodeKind::FloatUnaryOp(FloatUnaryOp::Floor) => "Floor"@,
        NodeKind::FloatUnaryOp(FloatUnaryOp::Round) => "Round"@,
        NodeKind::FloatCmpOp(FloatCmpOp::Equal) => "Equal"@,
        NodeKind::FloatCmpOp(FloatCmpOp::Less) => "Less"@,
        NodeKind::Truncate => "Truncate"@,
        NodeKind::Popcount => "Popcount"@,
        NodeKind::Lzcount => "Lzcount"@,
        NodeKind::CastToBool => "CastToBool"@,
        NodeKind::CastToInt => "CastToInt"@,
        NodeKind::CastToFloat => "CastToFloat"@,
        NodeKind::BoolUnaryOp(_) => "Not"@,
        NodeKind::IntToFloat => "IntToFloat"@,
        NodeKind::FloatToInt => "FloatToInt"@,
        NodeKind::FloatToFloat => "FloatToFloat"@,
        NodeKind::IntBitsToFloat => "IntBitsToFloat"@,
        NodeKind::FloatBitsToInt => "FloatBitsToInt"@,
        NodeKind::SegmentOp { .. } => "SegmentOp"@,
        NodeKind::CPoolRef => "CPoolRef"@,
        NodeKind::New => "New"@,
        NodeKind::MemProject => "MemProject"@,
        NodeKind::MemUnion => "MemUnion"@,
    }
}

/// The bare name of what a node does.
pub fn bare_name(kind: &NodeKind) -> (r: &'static str)
    ensures
        r@ == bare_text(*kind),
{
    match *kind {
        NodeKind::Entry => "Entry",
        NodeKind::InitialMemory => "InitialMemory",
        NodeKind::InitialVar(_) => "InitialVar",
        NodeKind::FunctionArg { .. } => "FunctionArg",
        NodeKind::Region => "Region",
        NodeKind::ControlState => "ControlState",
        NodeKind::MemPhi => "MemPhi",
        NodeKind::Phi => "Phi",
        NodeKind::If => "If",
        NodeKind::Switch(_) => "Switch",
        NodeKind::Call { .. } => "Call",
        NodeKind::CallOther { .. } => "CallOther",
        NodeKind::Return => "Return",
        NodeKind::IndirectBranch => "IndirectBranch",
        NodeKind::Unreachable => "Unreachable",
        NodeKind::Load(_) => "Load",
        NodeKind::Store(_) => "Store",
        NodeKind::StackStore { .. } => "StackStore",
        NodeKind::StackStorePhi { .. } => "StackStorePhi",
        NodeKind::IntConst(_) => "IntConst",
        NodeKind::FloatConst(_) => "FloatConst",
        NodeKind::BoolConst(_) => "BoolConst",
        NodeKind::IntUnaryOp(_) => "Neg",
        NodeKind::IntBinaryOp(IntBinaryOp::Add) => "Add",
        NodeKind::IntBinaryOp(IntBinaryOp::And) => "And",
        NodeKind::IntBinaryOp(IntBinaryOp::Or) => "Or",
        NodeKind::IntBinaryOp(IntBinaryOp::Xor) => "Xor",
        NodeKind::IntBinaryOp(IntBinaryOp::Div) => "Div",
        NodeKind::IntBinaryOp(IntBinaryOp::Sdiv) => "Sdiv",
        NodeKind::IntBinaryOp(IntBinaryOp::Rem) => "Rem",
        NodeKind::IntBinaryOp(IntBinaryOp::Srem) => "Srem",
        NodeKind::IntBinaryOp(IntBinaryOp::ShiftRight) => "ShiftRight",
        NodeKind::IntBinaryOp(IntBinaryOp::SShiftRight) => "SShiftRight",
        NodeKind::IntBinaryOp(IntBinaryOp::ShiftLeft) => "ShiftLeft",
        NodeKind::IntBinaryOp(IntBinaryOp::Mul) => "Mul",
        NodeKind::IntCmpOp(IntCmpOp::Equal) => "Equal",
        NodeKind::IntCmpOp(IntCmpOp::Sless) => "Sless",
        NodeKind::IntCmpOp(IntCmpOp::Less) => "Less",
        NodeKind::IntCmpOp(IntCmpOp::Carry) => "Carry",
        NodeKind::IntCmpOp(IntCmpOp::Scarry) => "Scarry",
        NodeKind::IntCmpOp(IntCmpOp::Sborrow) => "Sborrow",
        NodeKind::Extend(ExtendOp::ZeroExtend) => "ZeroExtend",
        NodeKind::Extend(ExtendOp::SignExtend) => "SignExtend",
        NodeKind::BoolBinaryOp(BoolBinaryOp::And) => "And",
        NodeKind::BoolBinaryOp(BoolBinaryOp::Or) => "Or",
        NodeKind::BoolBinaryOp(BoolBinaryOp::Xor) => "Xor",
        NodeKind::FloatBinaryOp(FloatBinaryOp::Add) => "Add",
        NodeKind::FloatBinaryOp(FloatBinaryOp::Mul) => "Mul",
        NodeKind::FloatBinaryOp(FloatBinaryOp::Div) => "Div",
        NodeKind::FloatUnaryOp(FloatUnaryOp::Neg) => "Neg",
        NodeKind::FloatUnaryOp(FloatUnaryOp::Abs) => "Abs",
        NodeKind::FloatUnaryOp(FloatUnaryOp::Sqrt) => "Sqrt",
        NodeKind::FloatUnaryOp(FloatUnaryOp::Ceil) => "Ceil",
        NodeKind::FloatUnaryOp(FloatUnaryOp::Floor) => "Floor",
        NodeKind::FloatUnaryOp(FloatUnaryOp::Round) => "Round",
        NodeKind::FloatCmpOp(FloatCmpOp::Equal) => "Equal",
        NodeKind::FloatCmpOp(FloatCmpOp::Less) => "Less",
        NodeKind::Truncate => "Truncate",
        NodeKind::Popcount => "Popcount",
        NodeKind::Lzcount => "Lzcount",
        NodeKind::CastToBool => "CastToBool",
        NodeKind::CastToInt => "CastToInt",
        NodeKind::CastToFloat => "CastToFloat",
        NodeKind::BoolUnaryOp(_) => "Not",
        NodeKind::IntToFloat => "IntToFloat",
        NodeKind::FloatToInt => "FloatToInt",
        NodeKind::FloatToFloat => "FloatToFloat",
        NodeKind::IntBitsToFloat => "IntBitsToFloat",
        NodeKind::FloatBitsToInt => "FloatBitsToInt",
        NodeKind::SegmentOp { .. } => "SegmentOp",
        NodeKind::CPoolRef => "CPoolRef",
        NodeKind::New => "New",
        NodeKind::MemProject => "MemProject",
        NodeKind::MemUnion => "MemUnion",
    }
}

/// A type by the name that integers without a sign go by.
pub open spec fn unsigned_text(ty: ValueType) -> Seq<char> {
    match ty {
        ValueType::I1 => "bool"@,
        ValueType::I8 => "u8"@,
        ValueType::I16 => "u16"@,
        ValueType::I32 => "u32"@,
        ValueType::I64 => "u64"@,
        ValueType::I80 => "u80"@,
        ValueType::I128 => "u128"@,
        ValueType::I256 => "u256"@,
        ValueType::I512 => "u512"@,
        ValueType::F16 => "f16"@,
        ValueType::F32 => "f32"@,
        ValueType::F64 => "f64"@,
        ValueType::F80 => "f80"@,
        ValueType::F128 => "f128"@,
    }
}

/// A type by the name that integers without a sign go by.
pub fn unsigned_name(ty: ValueType) -> (r: &'static str)
    ensures
        r@ == unsigned_text(ty),
{
    match ty {
        ValueType::I1 => "bool",
        ValueType::I8 => "u8",
        ValueType::I16 => "u16",
        ValueType::I32 => "u32",
        ValueType::I64 => "u64",
        ValueType::I80 => "u80",
        ValueType::I128 => "u128",
        ValueType::I256 => "u256",
        ValueType::I512 => "u512",
        ValueType::F16 => "f16",
        ValueType::F32 => "f32",
        ValueType::F64 => "f64",
        ValueType::F80 => "f80",
        ValueType::F128 => "f128",
    }
}

/// What input `index` is to a node of the kind.
pub open spec fn slot_role(kind: NodeKind, index: int) -> Option<SlotRole> {
    match kind {
        NodeKind::Region
        | NodeKind::ControlState => Some(SlotRole::Control),
        NodeKind::Phi
        | NodeKind::MemPhi => if index == 0 {
            Some(SlotRole::Phi)
        } else {
            Some(SlotRole::In)
        },
        NodeKind::If => if index == 0 {
            Some(SlotRole::Control)
        } else if index == 1 {
            Some(SlotRole::Cond)
        } else {
            None
        },
        NodeKind::Switch(_) => if index == 0 {
            Some(SlotRole::Control)
        } else if index == 1 {
            Some(SlotRole::Val)
        } else {
            None
        },
        NodeKind::Call { .. } => if index == 0 {
            Some(SlotRole::Control)
        } else if index == 1 {
            Some(SlotRole::Memory)
        } else if index == 2 {
            Some(SlotRole::Target)
        } else if index == 3 {
            Some(SlotRole::Sp)
        } else {
            Some(SlotRole::Arg)
        },
        NodeKind::CallOther { .. } => if index == 0 {
            Some(SlotRole::Control)
        } else if index == 1 {
            Some(SlotRole::Memory)
        } else {
            Some(SlotRole::Arg)
        },
        NodeKind::Return => if index == 0 {
            Some(SlotRole::Control)
        } else if index == 1 {
            Some(SlotRole::Memory)
        } else {
            Some(SlotRole::Ret)
        },
        NodeKind::IndirectBranch => if index == 0 {
            Some(SlotRole::Control)
        } else if index == 1 {
            Some(SlotRole::Memory)
        } else if index == 2 {
            Some(SlotRole::Target)
        } else {
            None
        },
        NodeKind::Unreachable => if index == 0 {
            Some(SlotRole::Control)
        } else {
            None
        },
        NodeKind::Load(_) => if index == 0 {
            Some(SlotRole::Memory)
        } else if index == 1 {
            Some(SlotRole::Addr)
        } else {
            None
        },
        NodeKind::Store(_) => if index == 0 {
            Some(SlotRole::Memory)
        } else if index == 1 {
            Some(SlotRole::Addr)
        } else if index == 2 {
            Some(SlotRole::Data)
        } else {
            None
        },
        NodeKind::StackStore { .. }
        | NodeKind::StackStorePhi { .. } => if index == 0 {
            Some(SlotRole::Memory)
        } else if index == 1 {
            Some(SlotRole::Sp)
        } else if index == 2 {
            Some(SlotRole::Data)
        } else {
            None
        },
        NodeKind::IntBinaryOp(_)
        | NodeKind::IntCmpOp(_)
        | NodeKind::BoolBinaryOp(_)
        | NodeKind::FloatBinaryOp(_)
        | NodeKind::FloatCmpOp(_) => if index == 0 {
            Some(SlotRole::Lhs)
        } else if index == 1 {
            Some(SlotRole::Rhs)
        } else {
            None
        },
        NodeKind::IntUnaryOp(_)
        | NodeKind::BoolUnaryOp(_)
        | NodeKind::FloatUnaryOp(_)
        | NodeKind::Truncate
        | NodeKind::Popcount
        | NodeKind::Lzcount
        | NodeKind::Extend(_)
        | NodeKind::CastToBool
        | NodeKind::CastToInt
        | NodeKind::CastToFloat
        | NodeKind::IntToFloat
        | NodeKind::FloatToInt
        | NodeKind::FloatToFloat
        | NodeKind::IntBitsToFloat
        | NodeKind::FloatBitsToInt => if index == 0 {
            Some(SlotRole::Val)
        } else {
            None
        },
        NodeKind::SegmentOp { .. } => if index == 0 {
            Some(SlotRole::Seg)
        } else if index == 1 {
            Some(SlotRole::Off)
        } else {
            None
        },
        NodeKind::CPoolRef
        | NodeKind::New => Some(SlotRole::Ref),
        NodeKind::MemProject
        | NodeKind::MemUnion => Some(SlotRole::Memory),
        _ => None,
    }
}

/// What input `index` is to a node of the kind.
pub fn input_role(kind: &NodeKind, index: usize) -> (r: Option<SlotRole>)
    ensures
        r == slot_role(*kind, index as int),
{
    match *kind {
        NodeKind::Region
        | NodeKind::ControlState => Some(SlotRole::Control),
        NodeKind::Phi
        | NodeKind::MemPhi => if index == 0 {
            Some(SlotRole::Phi)
        } else {
            Some(SlotRole::In)
        },
        NodeKind::If => if index == 0 {
            Some(SlotRole::Control)
        } else if index == 1 {
            Some(SlotRole::Cond)
        } else {
            None
        },
        NodeKind::Switch(_) => if index == 0 {
            Some(SlotRole::Control)
        } else if index == 1 {
            Some(SlotRole::Val)
        } else {
            None
        },
        NodeKind::Call { .. } => if index == 0 {
            Some(SlotRole::Control)
        } else if index == 1 {
            Some(SlotRole::Memory)
        } else if index == 2 {
            Some(SlotRole::Target)
        } else if index == 3 {
            Some(SlotRole::Sp)
        } else {
            Some(SlotRole::Arg)
        },
        NodeKind::CallOther { .. } => if index == 0 {
            Some(SlotRole::Control)
        } else if index == 1 {
            Some(SlotRole::Memory)
        } else {
            Some(SlotRole::Arg)
        },
        NodeKind::Return => if index == 0 {
            Some(SlotRole::Control)
        } else if index == 1 {
            Some(SlotRole::Memory)
        } else {
            Some(SlotRole::Ret)
        },
        NodeKind::IndirectBranch => if index == 0 {
            Some(SlotRole::Control)
        } else if index == 1 {
            Some(SlotRole::Memory)
        } else if index == 2 {
            Some(SlotRole::Target)
        } else {
            None
        },
        NodeKind::Unreachable => if index == 0 {
            Some(SlotRole::Control)
        } else {
            None
        },
        NodeKind::Load(_) => if index == 0 {
            Some(SlotRole::Memory)
        } else if index == 1 {
            Some(SlotRole::Addr)
        } else {
            None
        },
        NodeKind::Store(_) => if index == 0 {
            Some(SlotRole::Memory)
        } else if index == 1 {
            Some(SlotRole::Addr)
        } else if index == 2 {
            Some(SlotRole::Data)
        } else {
            None
        },
        NodeKind::StackStore { .. }
        | NodeKind::StackStorePhi { .. } => if index == 0 {
            Some(SlotRole::Memory)
        } else if index == 1 {
            Some(SlotRole::Sp)
        } else if index == 2 {
            Some(SlotRole::Data)
        } else {
            None
        },
        NodeKind::IntBinaryOp(_)
        | NodeKind::IntCmpOp(_)
        | NodeKind::BoolBinaryOp(_)
        | NodeKind::FloatBinaryOp(_)
        | NodeKind::FloatCmpOp(_) => if index == 0 {
            Some(SlotRole::Lhs)
        } else if index == 1 {
            Some(SlotRole::Rhs)
        } else {
            None
        },
        NodeKind::IntUnaryOp(_)
        | NodeKind::BoolUnaryOp(_)
        | NodeKind::FloatUnaryOp(_)
        | NodeKind::Truncate
        | NodeKind::Popcount
        | NodeKind::Lzcount
        | NodeKind::Extend(_)
        | NodeKind::CastToBool
        | NodeKind::CastToInt
        | NodeKind::CastToFloat
        | NodeKind::IntToFloat
        | NodeKind::FloatToInt
        | NodeKind::FloatToFloat
        | NodeKind::IntBitsToFloat
        | NodeKind::FloatBitsToInt => if index == 0 {
            Some(SlotRole::Val)
        } else {
            None
        },
        NodeKind::SegmentOp { .. } => if index == 0 {
            Some(SlotRole::Seg)
        } else if index == 1 {
            Some(SlotRole::Off)
        } else {
            None
        },
        NodeKind::CPoolRef
        | NodeKind::New => Some(SlotRole::Ref),
        NodeKind::MemProject
        | NodeKind::MemUnion => Some(SlotRole::Memory),
        _ => None,
    }
}

/// The label and colour of the edge into input `index` of a node.
pub open spec fn edge_look(kind: NodeKind, index: int) -> (Seq<char>, Seq<char>) {
    match slot_role(kind, index) {
        Some(role) => (role_name_text(role), role_text(role)),
        None => (""@, "\"#cccccc\""@),
    }
}

/// The label and colour of the edge into input `index` of a node.
pub fn edge_style(kind: &NodeKind, index: usize) -> (r: (&'static str, &'static str))
    ensures
        (r.0@, r.1@) == edge_look(*kind, index as int),
{
    match input_role(kind, index) {
        Some(role) => (role_name(role), role_color(role)),
        None => ("", "\"#cccccc\""),
    }
}

/// The predecessor that input `index` belongs to: every input of a region is
/// one, and the inputs of a phi after its token match them.
pub open spec fn pred_of(kind: NodeKind, index: int) -> Option<int> {
    match kind {
        NodeKind::Region => Some(index),
        NodeKind::Phi | NodeKind::MemPhi => if index >= 1 {
            Some(index - 1)
        } else {
            None
        },
        _ => None,
    }
}

/// The predecessor that input `idx` belongs to.
pub fn pred_index(kind: NodeKind, idx: usize) -> (r: Option<usize>)
    ensures
        match r {
            Some(p) => pred_of(kind, idx as int) == Some(p as int),
            None => pred_of(kind, idx as int) is None,
        },
{
    match kind {
        NodeKind::Region => Some(idx),
        NodeKind::Phi | NodeKind::MemPhi => if idx >= 1 {
            Some(idx - 1)
        } else {
            None
        },
        _ => None,
    }
}

} // verus!
