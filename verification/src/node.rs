//! Ids, node kinds and value kinds: the payload vocabulary of the graph.

use crate::target::{Vn, VnSpace};
use crate::mem_partition::AliasClass;
use vstd::prelude::*;

verus! {

/// A node of the graph.
#[derive(Clone, Copy, PartialEq, Eq, Structural, Debug, Hash, PartialOrd, Ord)]
pub struct NodeId(pub u32);

/// An output value of a node.
#[derive(Clone, Copy, PartialEq, Eq, Structural, Debug, Hash, PartialOrd, Ord)]
pub struct ValueId(pub u32);

/// One input slot of a node.
#[derive(Clone, Copy, PartialEq, Eq, Structural, Debug, Hash, PartialOrd, Ord)]
pub struct UseId(pub u32);

/// An interned integer constant.
#[derive(Clone, Copy, PartialEq, Eq, Structural, Debug, Hash, PartialOrd, Ord)]
pub struct ConstId(pub u32);

/// A tracked varnode.
#[derive(Clone, Copy, PartialEq, Eq, Structural, Debug, Hash, PartialOrd, Ord)]
pub struct InitialVnId(pub u32);

/// The case table of a `Switch`.
#[derive(Clone, Copy, PartialEq, Eq, Structural, Debug, Hash, PartialOrd, Ord)]
pub struct SwitchTableId(pub u32);

/// An override calling convention.
#[derive(Clone, Copy, PartialEq, Eq, Structural, Debug, Hash, PartialOrd, Ord)]
pub struct CcId(pub u32);

impl cranelift_entity::EntityRef for NodeId {
    fn new(index: usize) -> Self {
        NodeId(index as u32)
    }

    fn index(self) -> usize {
        self.0 as usize
    }
}

impl cranelift_entity::EntityRef for ValueId {
    fn new(index: usize) -> Self {
        ValueId(index as u32)
    }

    fn index(self) -> usize {
        self.0 as usize
    }
}

impl cranelift_entity::EntityRef for UseId {
    fn new(index: usize) -> Self {
        UseId(index as u32)
    }

    fn index(self) -> usize {
        self.0 as usize
    }
}

impl cranelift_entity::EntityRef for SwitchTableId {
    fn new(index: usize) -> Self {
        SwitchTableId(index as u32)
    }

    fn index(self) -> usize {
        self.0 as usize
    }
}

/// The type of a data value.
#[derive(Clone, Copy, PartialEq, Eq, Structural, Debug, Hash, PartialOrd, Ord)]
pub enum ValueType {
    I1,
    I8,
    I16,
    I32,
    I64,
    I80,
    I128,
    I256,
    I512,
    F16,
    F32,
    F64,
    F80,
    F128,
}

impl ValueType {
    /// Width in bits.
    pub open spec fn width(self) -> nat {
        match self {
            ValueType::I1 => 1,
            ValueType::I8 => 8,
            ValueType::I16 | ValueType::F16 => 16,
            ValueType::I32 | ValueType::F32 => 32,
            ValueType::I64 | ValueType::F64 => 64,
            ValueType::I80 | ValueType::F80 => 80,
            ValueType::I128 | ValueType::F128 => 128,
            ValueType::I256 => 256,
            ValueType::I512 => 512,
        }
    }

    /// Integer types, `I1` among them.
    pub open spec fn integer(self) -> bool {
        !(self is F16 || self is F32 || self is F64 || self is F80 || self is F128)
    }

    /// The integers too wide for 128 bits.
    pub open spec fn wide(self) -> bool {
        self is I256 || self is I512
    }

    /// The mask of the bits a value of the type has, as far as 128 bits show
    /// them; a float type has none.
    pub open spec fn mask(self) -> u128 {
        match self {
            ValueType::I1 => 0x1,
            ValueType::I8 => 0xff,
            ValueType::I16 => 0xffff,
            ValueType::I32 => 0xffff_ffff,
            ValueType::I64 => 0xffff_ffff_ffff_ffff,
            ValueType::I80 => 0xffff_ffff_ffff_ffff_ffff,
            ValueType::I128
            | ValueType::I256
            | ValueType::I512 => 0xffff_ffff_ffff_ffff_ffff_ffff_ffff_ffff,
            ValueType::F16
            | ValueType::F32
            | ValueType::F64
            | ValueType::F80
            | ValueType::F128 => 0,
        }
    }

    /// The lower-case name.
    pub open spec fn name(self) -> Seq<char> {
        match self {
            ValueType::I1 => "i1"@,
            ValueType::I8 => "i8"@,
            ValueType::I16 => "i16"@,
            ValueType::I32 => "i32"@,
            ValueType::I64 => "i64"@,
            ValueType::I80 => "i80"@,
            ValueType::I128 => "i128"@,
            ValueType::I256 => "i256"@,
            ValueType::I512 => "i512"@,
            ValueType::F16 => "f16"@,
            ValueType::F32 => "f32"@,
            ValueType::F64 => "f64"@,
            ValueType::F80 => "f80"@,
            ValueType::F128 => "f128"@,
        }
    }

    /// Position in the declaration.
    pub open spec fn ordinal(self) -> u64 {
        match self {
            ValueType::I1 => 0,
            ValueType::I8 => 1,
            ValueType::I16 => 2,
            ValueType::I32 => 3,
            ValueType::I64 => 4,
            ValueType::I80 => 5,
            ValueType::I128 => 6,
            ValueType::I256 => 7,
            ValueType::I512 => 8,
            ValueType::F16 => 9,
            ValueType::F32 => 10,
            ValueType::F64 => 11,
            ValueType::F80 => 12,
            ValueType::F128 => 13,
        }
    }

    pub fn as_str(self) -> (r: &'static str)
        ensures
            r@ == self.name(),
    {
        match self {
            ValueType::I1 => "i1",
            ValueType::I8 => "i8",
            ValueType::I16 => "i16",
            ValueType::I32 => "i32",
            ValueType::I64 => "i64",
            ValueType::I80 => "i80",
            ValueType::I128 => "i128",
            ValueType::I256 => "i256",
            ValueType::I512 => "i512",
            ValueType::F16 => "f16",
            ValueType::F32 => "f32",
            ValueType::F64 => "f64",
            ValueType::F80 => "f80",
            ValueType::F128 => "f128",
        }
    }

    pub fn is_integer(self) -> (r: bool)
        ensures
            r == self.integer(),
    {
        match self {
            ValueType::F16
            | ValueType::F32
            | ValueType::F64
            | ValueType::F80
            | ValueType::F128 => false,
            _ => true,
        }
    }

    pub fn is_wide_int(self) -> (r: bool)
        ensures
            r == self.wide(),
    {
        match self {
            ValueType::I256 | ValueType::I512 => true,
            _ => false,
        }
    }

    pub fn bit_width(self) -> (r: usize)
        ensures
            r == self.width(),
    {
        match self {
            ValueType::I1 => 1,
            ValueType::I8 => 8,
            ValueType::I16 | ValueType::F16 => 16,
            ValueType::I32 | ValueType::F32 => 32,
            ValueType::I64 | ValueType::F64 => 64,
            ValueType::I80 | ValueType::F80 => 80,
            ValueType::I128 | ValueType::F128 => 128,
            ValueType::I256 => 256,
            ValueType::I512 => 512,
        }
    }

    /// Size in whole bytes.
    pub fn byte_size(self) -> (r: usize)
        ensures
            r == (self.width() + 7) / 8,
    {
        (self.bit_width() + 7) / 8
    }

    pub fn bit_mask_u128(self) -> (r: u128)
        ensures
            r == self.mask(),
    {
        match self {
            ValueType::I1 => 0x1,
            ValueType::I8 => 0xff,
            ValueType::I16 => 0xffff,
            ValueType::I32 => 0xffff_ffff,
            ValueType::I64 => 0xffff_ffff_ffff_ffff,
            ValueType::I80 => 0xffff_ffff_ffff_ffff_ffff,
            ValueType::I128
            | ValueType::I256
            | ValueType::I512 => 0xffff_ffff_ffff_ffff_ffff_ffff_ffff_ffff,
            ValueType::F16
            | ValueType::F32
            | ValueType::F64
            | ValueType::F80
            | ValueType::F128 => 0,
        }
    }

    fn code(self) -> (r: u64)
        ensures
            r == self.ordinal(),
    {
        match self {
            ValueType::I1 => 0,
            ValueType::I8 => 1,
            ValueType::I16 => 2,
            ValueType::I32 => 3,
            ValueType::I64 => 4,
            ValueType::I80 => 5,
            ValueType::I128 => 6,
            ValueType::I256 => 7,
            ValueType::I512 => 8,
            ValueType::F16 => 9,
            ValueType::F32 => 10,
            ValueType::F64 => 11,
            ValueType::F80 => 12,
            ValueType::F128 => 13,
        }
    }
}

/// What an output of a node is.
#[derive(Clone, Copy, PartialEq, Eq, Structural, Debug, Hash)]
pub enum ValueKind {
    /// A data value.
    Typed(ValueType),
    /// A control edge.
    Control,
    /// The token that ties a phi to its region.
    PhiToken,
    /// A memory state.
    Memory,
    /// The state of one partition of memory.
    MemoryPart(AliasClass),
}

impl ValueKind {
    /// A word of its own for each kind.
    pub open spec fn word(self) -> u64 {
        match self {
            ValueKind::Control => 0,
            ValueKind::PhiToken => 1,
            ValueKind::Memory => 2,
            ValueKind::Typed(ty) => (3 + ty.ordinal()) as u64,
            ValueKind::MemoryPart(class) => (32 + class.ordinal()) as u64,
        }
    }

    /// The type of a data value.
    pub open spec fn typed(self) -> Option<ValueType> {
        match self {
            ValueKind::Typed(ty) => Some(ty),
            _ => None,
        }
    }

    /// The partition a memory state is of, where it is of one alone.
    pub open spec fn partition(self) -> Option<AliasClass> {
        match self {
            ValueKind::MemoryPart(class) => Some(class),
            _ => None,
        }
    }

    pub fn memory_partition(self) -> (r: Option<AliasClass>)
        ensures
            r == self.partition(),
    {
        match self {
            ValueKind::MemoryPart(class) => Some(class),
            _ => None,
        }
    }

    pub fn as_value(self) -> (r: Option<ValueType>)
        ensures
            r == self.typed(),
    {
        match self {
            ValueKind::Typed(ty) => Some(ty),
            _ => None,
        }
    }

    pub(crate) fn code(self) -> (r: u64)
        ensures
            r == self.word(),
    {
        match self {
            ValueKind::Control => 0,
            ValueKind::PhiToken => 1,
            ValueKind::Memory => 2,
            ValueKind::Typed(ty) => 3 + ty.code(),
            ValueKind::MemoryPart(class) => 32 + class.code(),
        }
    }
}

#[derive(Clone, Copy, PartialEq, Eq, Structural, Debug, Hash)]
pub enum IntUnaryOp {
    Neg,
}

#[derive(Clone, Copy, PartialEq, Eq, Structural, Debug, Hash)]
pub enum IntBinaryOp {
    Add,
    And,
    Or,
    Xor,
    Div,
    Sdiv,
    Rem,
    Srem,
    ShiftRight,
    SShiftRight,
    ShiftLeft,
    Mul,
}

#[derive(Clone, Copy, PartialEq, Eq, Structural, Debug, Hash)]
pub enum IntCmpOp {
    Equal,
    Sless,
    Less,
    Carry,
    Scarry,
    Sborrow,
}

#[derive(Clone, Copy, PartialEq, Eq, Structural, Debug, Hash)]
pub enum ExtendOp {
    ZeroExtend,
    SignExtend,
}

#[derive(Clone, Copy, PartialEq, Eq, Structural, Debug, Hash)]
pub enum FloatBinaryOp {
    Add,
    Mul,
    Div,
}

#[derive(Clone, Copy, PartialEq, Eq, Structural, Debug, Hash)]
pub enum FloatUnaryOp {
    Neg,
    Abs,
    Sqrt,
    Ceil,
    Floor,
    Round,
}

#[derive(Clone, Copy, PartialEq, Eq, Structural, Debug, Hash)]
pub enum FloatCmpOp {
    Equal,
    Less,
}

#[derive(Clone, Copy, PartialEq, Eq, Structural, Debug, Hash)]
pub enum BoolBinaryOp {
    And,
    Or,
    Xor,
}

#[derive(Clone, Copy, PartialEq, Eq, Structural, Debug, Hash)]
pub enum BoolUnaryOp {
    Not,
}

/// Where a function argument comes from.
#[derive(Clone, Copy, PartialEq, Eq, Structural, Debug, Hash)]
pub enum FunctionArgSource {
    Register(Vn),
    Stack { space: VnSpace, offset: i64 },
}

/// The operation of a node.
#[derive(Clone, Copy, PartialEq, Eq, Structural, Debug, Hash)]
pub enum NodeKind {
    Entry,
    InitialMemory,
    InitialVar(InitialVnId),
    FunctionArg { source: FunctionArgSource, index: u32 },
    Region,
    ControlState,
    MemPhi,
    Phi,
    If,
    Switch(SwitchTableId),
    Call { cc: Option<CcId> },
    CallOther { user_op_id: u64 },
    Return,
    IndirectBranch,
    Unreachable,
    Load(VnSpace),
    Store(VnSpace),
    StackStore { space: VnSpace, offset: i64 },
    StackStorePhi { space: VnSpace },
    IntConst(ConstId),
    FloatConst(u64),
    BoolConst(bool),
    IntUnaryOp(IntUnaryOp),
    IntBinaryOp(IntBinaryOp),
    IntCmpOp(IntCmpOp),
    Truncate,
    Popcount,
    Lzcount,
    Extend(ExtendOp),
    CastToBool,
    CastToInt,
    CastToFloat,
    BoolBinaryOp(BoolBinaryOp),
    BoolUnaryOp(BoolUnaryOp),
    FloatBinaryOp(FloatBinaryOp),
    FloatUnaryOp(FloatUnaryOp),
    FloatCmpOp(FloatCmpOp),
    IntToFloat,
    FloatToInt,
    FloatToFloat,
    IntBitsToFloat,
    FloatBitsToInt,
    SegmentOp { op_id: u64 },
    CPoolRef,
    New,
    MemProject,
    MemUnion,
}

/// A kind spelled as plain words, no two kinds alike.
#[derive(Clone, Copy)]
pub struct KindCode {
    pub tag: u64,
    pub a: u64,
    pub b: u64,
    pub c: u64,
    pub d: u64,
}

pub open spec fn code0(tag: u64) -> KindCode {
    KindCode { tag, a: 0, b: 0, c: 0, d: 0 }
}

pub open spec fn code1(tag: u64, a: u64) -> KindCode {
    KindCode { tag, a, b: 0, c: 0, d: 0 }
}

/// Sign word of an offset.
pub open spec fn sign_word(o: i64) -> u64 {
    if o < 0 {
        1
    } else {
        0
    }
}

/// Magnitude word of an offset.
pub open spec fn magnitude_word(o: i64) -> u64 {
    if o < 0 {
        (-(o as int)) as u64
    } else {
        o as u64
    }
}

fn sign_code(o: i64) -> (r: u64)
    ensures
        r == sign_word(o),
{
    if o < 0 {
        1
    } else {
        0
    }
}

fn magnitude_code(o: i64) -> (r: u64)
    ensures
        r == magnitude_word(o),
{
    if o < 0 {
        (-(o as i128)) as u64
    } else {
        o as u64
    }
}

fn make0(tag: u64) -> (r: KindCode)
    ensures
        r == code0(tag),
{
    KindCode { tag, a: 0, b: 0, c: 0, d: 0 }
}

fn make1(tag: u64, a: u64) -> (r: KindCode)
    ensures
        r == code1(tag, a),
{
    KindCode { tag, a, b: 0, c: 0, d: 0 }
}

impl IntBinaryOp {
    pub open spec fn word(self) -> u64 {
        match self {
            IntBinaryOp::Add => 0,
            IntBinaryOp::And => 1,
            IntBinaryOp::Or => 2,
            IntBinaryOp::Xor => 3,
            IntBinaryOp::Div => 4,
            IntBinaryOp::Sdiv => 5,
            IntBinaryOp::Rem => 6,
            IntBinaryOp::Srem => 7,
            IntBinaryOp::ShiftRight => 8,
            IntBinaryOp::SShiftRight => 9,
            IntBinaryOp::ShiftLeft => 10,
            IntBinaryOp::Mul => 11,
        }
    }

    fn code(self) -> (r: u64)
        ensures
            r == self.word(),
    {
        match self {
            IntBinaryOp::Add => 0,
            IntBinaryOp::And => 1,
            IntBinaryOp::Or => 2,
            IntBinaryOp::Xor => 3,
            IntBinaryOp::Div => 4,
            IntBinaryOp::Sdiv => 5,
            IntBinaryOp::Rem => 6,
            IntBinaryOp::Srem => 7,
            IntBinaryOp::ShiftRight => 8,
            IntBinaryOp::SShiftRight => 9,
            IntBinaryOp::ShiftLeft => 10,
            IntBinaryOp::Mul => 11,
        }
    }
}

impl IntCmpOp {
    pub open spec fn word(self) -> u64 {
        match self {
            IntCmpOp::Equal => 0,
            IntCmpOp::Sless => 1,
            IntCmpOp::Less => 2,
            IntCmpOp::Carry => 3,
            IntCmpOp::Scarry => 4,
            IntCmpOp::Sborrow => 5,
        }
    }

    fn code(self) -> (r: u64)
        ensures
            r == self.word(),
    {
        match self {
            IntCmpOp::Equal => 0,
            IntCmpOp::Sless => 1,
            IntCmpOp::Less => 2,
            IntCmpOp::Carry => 3,
            IntCmpOp::Scarry => 4,
            IntCmpOp::Sborrow => 5,
        }
    }
}

impl FloatUnaryOp {
    pub open spec fn word(self) -> u64 {
        match self {
            FloatUnaryOp::Neg => 0,
            FloatUnaryOp::Abs => 1,
            FloatUnaryOp::Sqrt => 2,
            FloatUnaryOp::Ceil => 3,
            FloatUnaryOp::Floor => 4,
            FloatUnaryOp::Round => 5,
        }
    }

    fn code(self) -> (r: u64)
        ensures
            r == self.word(),
    {
        match self {
            FloatUnaryOp::Neg => 0,
            FloatUnaryOp::Abs => 1,
            FloatUnaryOp::Sqrt => 2,
            FloatUnaryOp::Ceil => 3,
            FloatUnaryOp::Floor => 4,
            FloatUnaryOp::Round => 5,
        }
    }
}

impl NodeKind {
    /// Kinds that are shared by structure: two creations with the same kind,
    /// inputs and output kinds give one node.
    pub open spec fn cacheable(self) -> bool {
        !(self is Region || self is ControlState || self is MemPhi || self is Phi || self is Switch
            || self is Call || self is CallOther || self is Return || self is IndirectBranch
            || self is Unreachable || self is Store || self is StackStore || self is StackStorePhi
            || self is New)
    }

    /// Kinds that steer control.
    pub open spec fn control_flow(self) -> bool {
        self is Entry || self is Region || self is ControlState || self is If || self is Switch
            || self is Call || self is CallOther || self is Return || self is IndirectBranch
            || self is Unreachable
    }

    /// Kinds that stay whether or not anything uses them.
    pub open spec fn side_effects(self) -> bool {
        self.control_flow() || self is Store || self is StackStore || self is StackStorePhi
    }

    /// The kind as words.
    pub open spec fn words(self) -> KindCode {
        match self {
            NodeKind::Entry => code0(0),
            NodeKind::InitialMemory => code0(1),
            NodeKind::InitialVar(id) => code1(2, id.0 as u64),
            NodeKind::FunctionArg { source, index } => match source {
                FunctionArgSource::Register(vn) => KindCode {
                    tag: 3,
                    a: index as u64,
                    b: vn.addr_off,
                    c: vn.addr_space.byte() as u64,
                    d: vn.size as u64,
                },
                FunctionArgSource::Stack { space, offset } => KindCode {
                    tag: 4,
                    a: index as u64,
                    b: space.byte() as u64,
                    c: sign_word(offset),
                    d: magnitude_word(offset),
                },
            },
            NodeKind::Region => code0(5),
            NodeKind::ControlState => code0(6),
            NodeKind::MemPhi => code0(7),
            NodeKind::Phi => code0(8),
            NodeKind::If => code0(9),
            NodeKind::Switch(id) => code1(10, id.0 as u64),
            NodeKind::Call { cc } => match cc {
                Some(id) => code1(11, (id.0 + 1) as u64),
                None => code1(11, 0),
            },
            NodeKind::CallOther { user_op_id } => code1(12, user_op_id),
            NodeKind::Return => code0(13),
            NodeKind::IndirectBranch => code0(14),
            NodeKind::Unreachable => code0(15),
            NodeKind::Load(space) => code1(16, space.byte() as u64),
            NodeKind::Store(space) => code1(17, space.byte() as u64),
            NodeKind::StackStore { space, offset } => KindCode {
                tag: 18,
                a: space.byte() as u64,
                b: sign_word(offset),
                c: magnitude_word(offset),
                d: 0,
            },
            NodeKind::StackStorePhi { space } => code1(19, space.byte() as u64),
            NodeKind::IntConst(id) => code1(20, id.0 as u64),
            NodeKind::FloatConst(bits) => code1(21, bits),
            NodeKind::BoolConst(b) => code1(22, if b { 1 } else { 0 }),
            NodeKind::IntUnaryOp(_) => code0(23),
            NodeKind::IntBinaryOp(op) => code1(24, op.word()),
            NodeKind::IntCmpOp(op) => code1(25, op.word()),
            NodeKind::Truncate => code0(26),
            NodeKind::Popcount => code0(27),
            NodeKind::Lzcount => code0(28),
            NodeKind::Extend(op) => code1(29, if op is ZeroExtend { 0 } else { 1 }),
            NodeKind::CastToBool => code0(30),
            NodeKind::CastToInt => code0(31),
            NodeKind::CastToFloat => code0(32),
            NodeKind::BoolBinaryOp(op) => code1(
                33,
                if op is And { 0 } else if op is Or { 1 } else { 2 },
            ),
            NodeKind::BoolUnaryOp(_) => code0(34),
            NodeKind::FloatBinaryOp(op) => code1(
                35,
                if op is Add { 0 } else if op is Mul { 1 } else { 2 },
            ),
            NodeKind::FloatUnaryOp(op) => code1(36, op.word()),
            NodeKind::FloatCmpOp(op) => code1(37, if op is Equal { 0 } else { 1 }),
            NodeKind::IntToFloat => code0(38),
            NodeKind::FloatToInt => code0(39),
            NodeKind::FloatToFloat => code0(40),
            NodeKind::IntBitsToFloat => code0(41),
            NodeKind::FloatBitsToInt => code0(42),
            NodeKind::SegmentOp { op_id } => code1(43, op_id),
            NodeKind::CPoolRef => code0(44),
            NodeKind::New => code0(45),
            NodeKind::MemProject => code0(46),
            NodeKind::MemUnion => code0(47),
        }
    }

    /// Kinds that are a constant.
    pub open spec fn constant(self) -> bool {
        self is IntConst || self is FloatConst || self is BoolConst
    }

    pub fn is_const(&self) -> (r: bool)
        ensures
            r == self.constant(),
    {
        match self {
            NodeKind::IntConst(_) | NodeKind::FloatConst(_) | NodeKind::BoolConst(_) => true,
            _ => false,
        }
    }

    pub fn is_cacheable(&self) -> (r: bool)
        ensures
            r == self.cacheable(),
    {
        match self {
            NodeKind::Region
            | NodeKind::ControlState
            | NodeKind::MemPhi
            | NodeKind::Phi
            | NodeKind::Switch(_)
            | NodeKind::Call { .. }
            | NodeKind::CallOther { .. }
            | NodeKind::Return
            | NodeKind::IndirectBranch
            | NodeKind::Unreachable
            | NodeKind::Store(_)
            | NodeKind::StackStore { .. }
            | NodeKind::StackStorePhi { .. }
            | NodeKind::New => false,
            _ => true,
        }
    }

    pub fn has_control_flow(&self) -> (r: bool)
        ensures
            r == self.control_flow(),
    {
        match self {
            NodeKind::Entry
            | NodeKind::Region
            | NodeKind::ControlState
            | NodeKind::If
            | NodeKind::Switch(_)
            | NodeKind::Call { .. }
            | NodeKind::CallOther { .. }
            | NodeKind::Return
            | NodeKind::IndirectBranch
            | NodeKind::Unreachable => true,
            _ => false,
        }
    }

    pub fn has_side_effects(&self) -> (r: bool)
        ensures
            r == self.side_effects(),
    {
        if self.has_control_flow() {
            return true;
        }
        match self {
            NodeKind::Store(_)
            | NodeKind::StackStore { .. }
            | NodeKind::StackStorePhi { .. } => true,
            _ => false,
        }
    }

    pub(crate) fn code(&self) -> (r: KindCode)
        ensures
            r == self.words(),
    {
        match *self {
            NodeKind::Entry => make0(0),
            NodeKind::InitialMemory => make0(1),
            NodeKind::InitialVar(id) => make1(2, id.0 as u64),
            NodeKind::FunctionArg { source, index } => match source {
                FunctionArgSource::Register(vn) => KindCode {
                    tag: 3,
                    a: index as u64,
                    b: vn.addr_off,
                    c: vn.addr_space.shortcut_raw() as u64,
                    d: vn.size as u64,
                },
                FunctionArgSource::Stack { space, offset } => KindCode {
                    tag: 4,
                    a: index as u64,
                    b: space.shortcut_raw() as u64,
                    c: sign_code(offset),
                    d: magnitude_code(offset),
                },
            },
            NodeKind::Region => make0(5),
            NodeKind::ControlState => make0(6),
            NodeKind::MemPhi => make0(7),
            NodeKind::Phi => make0(8),
            NodeKind::If => make0(9),
            NodeKind::Switch(id) => make1(10, id.0 as u64),
            NodeKind::Call { cc } => match cc {
                Some(id) => make1(11, id.0 as u64 + 1),
                None => make1(11, 0),
            },
            NodeKind::CallOther { user_op_id } => make1(12, user_op_id),
            NodeKind::Return => make0(13),
            NodeKind::IndirectBranch => make0(14),
            NodeKind::Unreachable => make0(15),
            NodeKind::Load(space) => make1(16, space.shortcut_raw() as u64),
            NodeKind::Store(space) => make1(17, space.shortcut_raw() as u64),
            NodeKind::StackStore { space, offset } => KindCode {
                tag: 18,
                a: space.shortcut_raw() as u64,
                b: sign_code(offset),
                c: magnitude_code(offset),
                d: 0,
            },
            NodeKind::StackStorePhi { space } => make1(19, space.shortcut_raw() as u64),
            NodeKind::IntConst(id) => make1(20, id.0 as u64),
            NodeKind::FloatConst(bits) => make1(21, bits),
            NodeKind::BoolConst(b) => make1(22, if b { 1 } else { 0 }),
            NodeKind::IntUnaryOp(_) => make0(23),
            NodeKind::IntBinaryOp(op) => make1(24, op.code()),
            NodeKind::IntCmpOp(op) => make1(25, op.code()),
            NodeKind::Truncate => make0(26),
            NodeKind::Popcount => make0(27),
            NodeKind::Lzcount => make0(28),
            NodeKind::Extend(op) => match op {
                ExtendOp::ZeroExtend => make1(29, 0),
                ExtendOp::SignExtend => make1(29, 1),
            },
            NodeKind::CastToBool => make0(30),
            NodeKind::CastToInt => make0(31),
            NodeKind::CastToFloat => make0(32),
            NodeKind::BoolBinaryOp(op) => match op {
                BoolBinaryOp::And => make1(33, 0),
                BoolBinaryOp::Or => make1(33, 1),
                BoolBinaryOp::Xor => make1(33, 2),
            },
            NodeKind::BoolUnaryOp(_) => make0(34),
            NodeKind::FloatBinaryOp(op) => match op {
                FloatBinaryOp::Add => make1(35, 0),
                FloatBinaryOp::Mul => make1(35, 1),
                FloatBinaryOp::Div => make1(35, 2),
            },
            NodeKind::FloatUnaryOp(op) => make1(36, op.code()),
            NodeKind::FloatCmpOp(op) => match op {
                FloatCmpOp::Equal => make1(37, 0),
                FloatCmpOp::Less => make1(37, 1),
            },
            NodeKind::IntToFloat => make0(38),
            NodeKind::FloatToInt => make0(39),
            NodeKind::FloatToFloat => make0(40),
            NodeKind::IntBitsToFloat => make0(41),
            NodeKind::FloatBitsToInt => make0(42),
            NodeKind::SegmentOp { op_id } => make1(43, op_id),
            NodeKind::CPoolRef => make0(44),
            NodeKind::New => make0(45),
            NodeKind::MemProject => make0(46),
            NodeKind::MemUnion => make0(47),
        }
    }
}

/// The offset with the given sign and magnitude words.
spec fn offset_of(sign: u64, magnitude: u64) -> i64 {
    if sign == 1 {
        (-(magnitude as int)) as i64
    } else {
        magnitude as i64
    }
}

spec fn int_binary_of(w: u64) -> IntBinaryOp {
    if w == 0 {
        IntBinaryOp::Add
    } else if w == 1 {
        IntBinaryOp::And
    } else if w == 2 {
        IntBinaryOp::Or
    } else if w == 3 {
        IntBinaryOp::Xor
    } else if w == 4 {
        IntBinaryOp::Div
    } else if w == 5 {
        IntBinaryOp::Sdiv
    } else if w == 6 {
        IntBinaryOp::Rem
    } else if w == 7 {
        IntBinaryOp::Srem
    } else if w == 8 {
        IntBinaryOp::ShiftRight
    } else if w == 9 {
        IntBinaryOp::SShiftRight
    } else if w == 10 {
        IntBinaryOp::ShiftLeft
    } else {
        IntBinaryOp::Mul
    }
}

spec fn int_compare_of(w: u64) -> IntCmpOp {
    if w == 0 {
        IntCmpOp::Equal
    } else if w == 1 {
        IntCmpOp::Sless
    } else if w == 2 {
        IntCmpOp::Less
    } else if w == 3 {
        IntCmpOp::Carry
    } else if w == 4 {
        IntCmpOp::Scarry
    } else {
        IntCmpOp::Sborrow
    }
}

spec fn float_unary_of(w: u64) -> FloatUnaryOp {
    if w == 0 {
        FloatUnaryOp::Neg
    } else if w == 1 {
        FloatUnaryOp::Abs
    } else if w == 2 {
        FloatUnaryOp::Sqrt
    } else if w == 3 {
        FloatUnaryOp::Ceil
    } else if w == 4 {
        FloatUnaryOp::Floor
    } else {
        FloatUnaryOp::Round
    }
}

/// The kinds that carry data, read back from their words.
spec fn payload_kind_of(k: KindCode) -> NodeKind {
    if k.tag == 2 {
        NodeKind::InitialVar(InitialVnId(k.a as u32))
    } else if k.tag == 3 {
        NodeKind::FunctionArg {
            source: FunctionArgSource::Register(
                Vn {
                    addr_off: k.b,
                    addr_space: VnSpace::of_byte(k.c as u8),
                    size: k.d as u32,
                },
            ),
            index: k.a as u32,
        }
    } else if k.tag == 4 {
        NodeKind::FunctionArg {
            source: FunctionArgSource::Stack {
                space: VnSpace::of_byte(k.b as u8),
                offset: offset_of(k.c, k.d),
            },
            index: k.a as u32,
        }
    } else if k.tag == 10 {
        NodeKind::Switch(SwitchTableId(k.a as u32))
    } else if k.tag == 11 {
        NodeKind::Call { cc: if k.a == 0 { None } else { Some(CcId((k.a - 1) as u32)) } }
    } else if k.tag == 12 {
        NodeKind::CallOther { user_op_id: k.a }
    } else if k.tag == 16 {
        NodeKind::Load(VnSpace::of_byte(k.a as u8))
    } else if k.tag == 17 {
        NodeKind::Store(VnSpace::of_byte(k.a as u8))
    } else if k.tag == 18 {
        NodeKind::StackStore { space: VnSpace::of_byte(k.a as u8), offset: offset_of(k.b, k.c) }
    } else if k.tag == 19 {
        NodeKind::StackStorePhi { space: VnSpace::of_byte(k.a as u8) }
    } else if k.tag == 20 {
        NodeKind::IntConst(ConstId(k.a as u32))
    } else if k.tag == 21 {
        NodeKind::FloatConst(k.a)
    } else if k.tag == 22 {
        NodeKind::BoolConst(k.a == 1)
    } else if k.tag == 24 {
        NodeKind::IntBinaryOp(int_binary_of(k.a))
    } else if k.tag == 25 {
        NodeKind::IntCmpOp(int_compare_of(k.a))
    } else if k.tag == 29 {
        NodeKind::Extend(if k.a == 0 { ExtendOp::ZeroExtend } else { ExtendOp::SignExtend })
    } else if k.tag == 33 {
        NodeKind::BoolBinaryOp(
            if k.a == 0 {
                BoolBinaryOp::And
            } else if k.a == 1 {
                BoolBinaryOp::Or
            } else {
                BoolBinaryOp::Xor
            },
        )
    } else if k.tag == 35 {
        NodeKind::FloatBinaryOp(
            if k.a == 0 {
                FloatBinaryOp::Add
            } else if k.a == 1 {
                FloatBinaryOp::Mul
            } else {
                FloatBinaryOp::Div
            },
        )
    } else if k.tag == 36 {
        NodeKind::FloatUnaryOp(float_unary_of(k.a))
    } else if k.tag == 37 {
        NodeKind::FloatCmpOp(if k.a == 0 { FloatCmpOp::Equal } else { FloatCmpOp::Less })
    } else {
        NodeKind::SegmentOp { op_id: k.a }
    }
}

/// The kinds without data, read back from their tags.
spec fn plain_kind_of(tag: u64) -> NodeKind {
    if tag == 0 {
        NodeKind::Entry
    } else if tag == 1 {
        NodeKind::InitialMemory
    } else if tag == 5 {
        NodeKind::Region
    } else if tag == 6 {
        NodeKind::ControlState
    } else if tag == 7 {
        NodeKind::MemPhi
    } else if tag == 8 {
        NodeKind::Phi
    } else if tag == 9 {
        NodeKind::If
    } else if tag == 13 {
        NodeKind::Return
    } else if tag == 14 {
        NodeKind::IndirectBranch
    } else if tag == 15 {
        NodeKind::Unreachable
    } else if tag == 23 {
        NodeKind::IntUnaryOp(IntUnaryOp::Neg)
    } else if tag == 26 {
        NodeKind::Truncate
    } else if tag == 27 {
        NodeKind::Popcount
    } else if tag == 28 {
        NodeKind::Lzcount
    } else if tag == 30 {
        NodeKind::CastToBool
    } else if tag == 31 {
        NodeKind::CastToInt
    } else if tag == 32 {
        NodeKind::CastToFloat
    } else if tag == 34 {
        NodeKind::BoolUnaryOp(BoolUnaryOp::Not)
    } else if tag == 38 {
        NodeKind::IntToFloat
    } else if tag == 39 {
        NodeKind::FloatToInt
    } else if tag == 40 {
        NodeKind::FloatToFloat
    } else if tag == 41 {
        NodeKind::IntBitsToFloat
    } else if tag == 42 {
        NodeKind::FloatBitsToInt
    } else if tag == 44 {
        NodeKind::CPoolRef
    } else if tag == 45 {
        NodeKind::New
    } else if tag == 46 {
        NodeKind::MemProject
    } else {
        NodeKind::MemUnion
    }
}

spec fn carries_data(k: KindCode) -> bool {
    k.tag == 2 || k.tag == 3 || k.tag == 4 || k.tag == 10 || k.tag == 11 || k.tag == 12 || k.tag
        == 16 || k.tag == 17 || k.tag == 18 || k.tag == 19 || k.tag == 20 || k.tag == 21 || k.tag
        == 22 || k.tag == 24 || k.tag == 25 || k.tag == 29 || k.tag == 33 || k.tag == 35 || k.tag
        == 36 || k.tag == 37 || k.tag == 43
}

spec fn kind_of(k: KindCode) -> NodeKind {
    if carries_data(k) {
        payload_kind_of(k)
    } else {
        plain_kind_of(k.tag)
    }
}

#[verifier::rlimit(60)]
proof fn lemma_kind_read_back(a: NodeKind)
    ensures
        kind_of(a.words()) == a,
{
    VnSpace::lemma_of_byte();
    match a {
        NodeKind::IntUnaryOp(op) => {
            assert(op == IntUnaryOp::Neg);
        },
        NodeKind::BoolUnaryOp(op) => {
            assert(op == BoolUnaryOp::Not);
        },
        _ => {},
    }
}

/// No two kinds are spelled by the same words.
pub proof fn lemma_kind_words_injective(a: NodeKind, b: NodeKind)
    requires
        a.words() == b.words(),
    ensures
        a == b,
{
    lemma_kind_read_back(a);
    lemma_kind_read_back(b);
}

/// No two value kinds share a word.
pub proof fn lemma_value_kind_word_injective(a: ValueKind, b: ValueKind)
    requires
        a.word() == b.word(),
    ensures
        a == b,
{
}

} // verus!
