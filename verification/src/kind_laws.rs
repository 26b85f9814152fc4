//! What the kinds of nodes, values and types are, said by name and by how they
//! relate to each other.

use crate::dot::style::{slot_role, SlotRole};
use crate::fmt::dec;
use crate::mem_partition::{partition_of, AliasClass};
use crate::node::{NodeKind, ValueKind, ValueType};
use vstd::arithmetic::power2::pow2;
use vstd::prelude::*;

verus! {

/// A node steers control exactly if it is the entry or its first input is
/// control.
pub proof fn law_control_flow_takes_control(kind: NodeKind)
    ensures
        kind.control_flow() <==> kind is Entry || slot_role(kind, 0) == Some(SlotRole::Control),
{
}

/// A node has side effects exactly if it steers control, or takes a memory
/// state and data to put there.
pub proof fn law_side_effects_are_control_or_writes(kind: NodeKind)
    ensures
        kind.side_effects() <==> kind is Entry || slot_role(kind, 0) == Some(SlotRole::Control) || (
        slot_role(kind, 0) == Some(SlotRole::Memory) && slot_role(kind, 2) == Some(SlotRole::Data)),
{
}

/// The kinds that steer control or write memory, and no others, have side
/// effects.
pub proof fn law_side_effects_by_name(kind: NodeKind)
    ensures
        kind is Entry || kind is Region || kind is ControlState || kind is If || kind is Switch
            || kind is Call || kind is CallOther || kind is Return || kind is IndirectBranch || kind
            is Unreachable ==> kind.control_flow() && kind.side_effects(),
        kind is Store || kind is StackStore || kind is StackStorePhi ==> kind.side_effects()
            && !kind.control_flow(),
        kind is InitialMemory || kind is InitialVar || kind is FunctionArg || kind is MemPhi || kind
            is Phi || kind is Load || kind is MemProject || kind is MemUnion
            ==> !kind.side_effects() && !kind.control_flow(),
        kind is IntConst || kind is FloatConst || kind is BoolConst ==> !kind.side_effects()
            && !kind.control_flow(),
        kind is IntUnaryOp || kind is IntBinaryOp || kind is IntCmpOp || kind is BoolUnaryOp || kind
            is BoolBinaryOp || kind is FloatUnaryOp || kind is FloatBinaryOp || kind is FloatCmpOp
            || kind is Popcount || kind is Lzcount ==> !kind.side_effects() && !kind.control_flow(),
        kind is Truncate || kind is Extend || kind is CastToBool || kind is CastToInt || kind
            is CastToFloat || kind is IntToFloat || kind is FloatToInt || kind is FloatToFloat
            || kind is IntBitsToFloat || kind is FloatBitsToInt ==> !kind.side_effects()
            && !kind.control_flow(),
        kind is SegmentOp || kind is CPoolRef || kind is New ==> !kind.side_effects()
            && !kind.control_flow(),
{
}

/// A kind is not shared exactly if it has side effects, the entry and the
/// two-way branch aside, if it is tied to a region as a phi is, or if it
/// allocates.
pub proof fn law_unshared_kinds(kind: NodeKind)
    ensures
        !kind.cacheable() <==> (kind.side_effects() && !(kind is Entry) && !(kind is If))
            || slot_role(kind, 0) == Some(SlotRole::Phi) || kind is New,
{
}

/// The shared kinds by name: all constants, arithmetic, comparisons, width
/// changes, conversions and loads, and whatever else a function starts from.
pub proof fn law_shared_by_name(kind: NodeKind)
    ensures
        kind is Entry || kind is If || kind is InitialMemory || kind is InitialVar || kind
            is FunctionArg || kind is Load || kind is MemProject || kind is MemUnion
            ==> kind.cacheable(),
        kind is IntConst || kind is FloatConst || kind is BoolConst ==> kind.cacheable(),
        kind is IntUnaryOp || kind is IntBinaryOp || kind is IntCmpOp || kind is BoolUnaryOp || kind
            is BoolBinaryOp || kind is FloatUnaryOp || kind is FloatBinaryOp || kind is FloatCmpOp
            || kind is Popcount || kind is Lzcount ==> kind.cacheable(),
        kind is Truncate || kind is Extend || kind is CastToBool || kind is CastToInt || kind
            is CastToFloat || kind is IntToFloat || kind is FloatToInt || kind is FloatToFloat
            || kind is IntBitsToFloat || kind is FloatBitsToInt || kind is SegmentOp || kind
            is CPoolRef ==> kind.cacheable(),
        kind is Region || kind is ControlState || kind is Phi || kind is MemPhi || kind is Switch
            || kind is Call || kind is CallOther || kind is Return || kind is IndirectBranch || kind
            is Unreachable ==> !kind.cacheable(),
        kind is Store || kind is StackStore || kind is StackStorePhi || kind is New
            ==> !kind.cacheable(),
{
}

/// Constants are the integer, float and truth constants: kinds that say a value
/// and read nothing.
pub proof fn law_constants_by_name(kind: NodeKind)
    ensures
        kind.constant() <==> kind is IntConst || kind is FloatConst || kind is BoolConst,
        kind.constant() ==> forall|i: int| #[trigger] slot_role(kind, i) is None,
{
}

/// Exactly the data values have a type, and exactly the states of one
/// partition have a partition.
pub proof fn law_value_kinds(kind: ValueKind, ty: ValueType, class: AliasClass)
    ensures
        kind.typed() == Some(ty) <==> kind == ValueKind::Typed(ty),
        kind.partition() == Some(class) <==> kind == ValueKind::MemoryPart(class),
{
}

/// The name of a type is a letter for integer or float, and its width.
pub proof fn law_type_names_say_class_and_width(ty: ValueType)
    ensures
        ty.name() == (if ty.integer() {
            "i"@
        } else {
            "f"@
        }) + dec(ty.width()),
{
    lemma_width_digits();
    reveal_strlit("i");
    reveal_strlit("f");
    reveal_strlit("i1");
    reveal_strlit("i8");
    reveal_strlit("i16");
    reveal_strlit("i32");
    reveal_strlit("i64");
    reveal_strlit("i80");
    reveal_strlit("i128");
    reveal_strlit("i256");
    reveal_strlit("i512");
    reveal_strlit("f16");
    reveal_strlit("f32");
    reveal_strlit("f64");
    reveal_strlit("f80");
    reveal_strlit("f128");
    let letter = if ty.integer() {
        "i"@
    } else {
        "f"@
    };
    assert(ty.name() =~= letter + dec(ty.width()));
}

/// The widths as they are written.
pub(crate) proof fn lemma_width_digits()
    ensures
        dec(1) =~= seq!['1'],
        dec(8) =~= seq!['8'],
        dec(16) =~= seq!['1', '6'],
        dec(32) =~= seq!['3', '2'],
        dec(64) =~= seq!['6', '4'],
        dec(80) =~= seq!['8', '0'],
        dec(128) =~= seq!['1', '2', '8'],
        dec(256) =~= seq!['2', '5', '6'],
        dec(512) =~= seq!['5', '1', '2'],
{
    reveal_with_fuel(dec, 3);
    reveal_strlit("0");
    reveal_strlit("1");
    reveal_strlit("2");
    reveal_strlit("3");
    reveal_strlit("4");
    reveal_strlit("5");
    reveal_strlit("6");
    reveal_strlit("8");
}

/// The widths, by name.
pub proof fn law_widths_by_name(ty: ValueType)
    ensures
        ty is I1 ==> ty.width() == 1,
        ty is I8 ==> ty.width() == 8,
        ty is I16 || ty is F16 ==> ty.width() == 16,
        ty is I32 || ty is F32 ==> ty.width() == 32,
        ty is I64 || ty is F64 ==> ty.width() == 64,
        ty is I80 || ty is F80 ==> ty.width() == 80,
        ty is I128 || ty is F128 ==> ty.width() == 128,
        ty is I256 ==> ty.width() == 256,
        ty is I512 ==> ty.width() == 512,
        ty.integer() <==> !(ty is F16 || ty is F32 || ty is F64 || ty is F80 || ty is F128),
{
}

/// The mask of an integer type has as many bits set as the type is wide, as far
/// as 128 bits go; the wide integers are those that go further.
pub proof fn law_masks_are_as_wide_as_the_type(ty: ValueType)
    ensures
        ty.integer() && ty.width() <= 128 ==> ty.mask() as nat + 1 == pow2(ty.width()),
        ty.integer() && ty.width() > 128 ==> ty.mask() == u128::MAX,
        !ty.integer() ==> ty.mask() == 0,
        ty.wide() <==> ty.integer() && ty.width() > 128,
{
    vstd::arithmetic::power2::lemma2_to64();
    vstd::arithmetic::power2::lemma2_to64_rest();
    vstd::arithmetic::power2::lemma_pow2_adds(64, 16);
    vstd::arithmetic::power2::lemma_pow2_adds(64, 64);
    assert(pow2(64) == 0x1_0000_0000_0000_0000);
    assert(pow2(80) == 0x1_0000_0000_0000_0000 * 0x1_0000);
    assert(pow2(128) == 0x1_0000_0000_0000_0000 * 0x1_0000_0000_0000_0000);
}

/// Read-only memory is the one partition that is never written.
pub proof fn law_only_rom_is_read_only(class: AliasClass)
    ensures
        partition_of(class).alias_class == class,
        partition_of(class).read_only <==> class is Rom,
        class is Stack ==> class.name() == "Stack"@,
        class is Heap ==> class.name() == "Heap"@,
        class is Rom ==> class.name() == "Rom"@,
        class is Unknown ==> class.name() == "Unknown"@,
{
}

} // verus!
