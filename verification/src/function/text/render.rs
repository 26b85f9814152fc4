//! The canonical text form, given the order in which nodes print.

use crate::const_value::{const_number, limbs_value, ConstModel, ConstValue};
use crate::entity_set::lemma_distinct_ints;
use crate::fmt::{
    bool_text, dec, hex, hex0x, lemma_hex_concat, lemma_pow16_limb, padded_hex, push_bool,
    push_dec, push_hex, push_hex0x, push_padded_hex, push_signed, signed_dec,
};
use crate::function::func::Function;
use crate::function::side_tables::{
    ascending, insert_ascending, lemma_ascending_unique, ArgClass,
};
use crate::graph::model::GraphModel;
use crate::node::{
    BoolBinaryOp, ExtendOp, FloatBinaryOp, FloatCmpOp, FloatUnaryOp, IntBinaryOp, IntCmpOp,
    NodeId, NodeKind, ValueId, ValueKind,
};
use crate::target::{BuiltCallingConvention, CcModel, Endianness, Vn, VnSpace};
use crate::mem_partition::AliasClass;
use vstd::prelude::*;
use vstd::string::{StrSliceExecFns, StringExecFns};

verus! {

// -- small pieces ----------------------------------------------------------------

/// The name of the operation of a kind.
pub open spec fn op_text(kind: NodeKind) -> Seq<char> {
    match kind {
        NodeKind::Entry => "entry"@,
        NodeKind::InitialMemory => "initial_memory"@,
        NodeKind::InitialVar(_) => "initial_var"@,
        NodeKind::FunctionArg { .. } => "function_arg"@,
        NodeKind::Region => "region"@,
        NodeKind::ControlState => "control_state"@,
        NodeKind::MemPhi => "memphi"@,
        NodeKind::Phi => "phi"@,
        NodeKind::If => "if"@,
        NodeKind::Switch(_) => "switch"@,
        NodeKind::Call { .. } => "call"@,
        NodeKind::CallOther { .. } => "callother"@,
        NodeKind::Return => "return"@,
        NodeKind::IndirectBranch => "indirect_branch"@,
        NodeKind::Unreachable => "unreachable"@,
        NodeKind::Load(_) => "load"@,
        NodeKind::Store(_) => "store"@,
        NodeKind::StackStore { .. } => "stack_store"@,
        NodeKind::StackStorePhi { .. } => "stack_store_phi"@,
        NodeKind::IntConst(_) => "iconst"@,
        NodeKind::FloatConst(_) => "fconst"@,
        NodeKind::BoolConst(_) => "bconst"@,
        NodeKind::IntUnaryOp(_) => "int.neg"@,
        NodeKind::IntBinaryOp(op) => match op {
            IntBinaryOp::Add => "int.add"@,
            IntBinaryOp::And => "int.and"@,
            IntBinaryOp::Or => "int.or"@,
            IntBinaryOp::Xor => "int.xor"@,
            IntBinaryOp::Div => "int.div"@,
            IntBinaryOp::Sdiv => "int.sdiv"@,
            IntBinaryOp::Rem => "int.rem"@,
            IntBinaryOp::Srem => "int.srem"@,
            IntBinaryOp::ShiftRight => "int.shift_right"@,
            IntBinaryOp::SShiftRight => "int.sshift_right"@,
            IntBinaryOp::ShiftLeft => "int.shift_left"@,
            IntBinaryOp::Mul => "int.mul"@,
        },
        NodeKind::IntCmpOp(op) => match op {
            IntCmpOp::Equal => "icmp.equal"@,
            IntCmpOp::Sless => "icmp.sless"@,
            IntCmpOp::Less => "icmp.less"@,
            IntCmpOp::Carry => "icmp.carry"@,
            IntCmpOp::Scarry => "icmp.scarry"@,
            IntCmpOp::Sborrow => "icmp.sborrow"@,
        },
        NodeKind::Truncate => "truncate"@,
        NodeKind::Popcount => "popcount"@,
        NodeKind::Lzcount => "lzcount"@,
        NodeKind::Extend(op) => match op {
            ExtendOp::ZeroExtend => "extend.zero"@,
            ExtendOp::SignExtend => "extend.sign"@,
        },
        NodeKind::CastToBool => "cast.bool"@,
        NodeKind::CastToInt => "cast.int"@,
        NodeKind::CastToFloat => "cast.float"@,
        NodeKind::BoolBinaryOp(op) => match op {
            BoolBinaryOp::And => "bool.and"@,
            BoolBinaryOp::Or => "bool.or"@,
            BoolBinaryOp::Xor => "bool.xor"@,
        },
        NodeKind::BoolUnaryOp(_) => "bool.not"@,
        NodeKind::FloatBinaryOp(op) => match op {
            FloatBinaryOp::Add => "float.add"@,
            FloatBinaryOp::Mul => "float.mul"@,
            FloatBinaryOp::Div => "float.div"@,
        },
        NodeKind::FloatUnaryOp(op) => match op {
            FloatUnaryOp::Neg => "float.neg"@,
            FloatUnaryOp::Abs => "float.abs"@,
            FloatUnaryOp::Sqrt => "float.sqrt"@,
            FloatUnaryOp::Ceil => "float.ceil"@,
            FloatUnaryOp::Floor => "float.floor"@,
            FloatUnaryOp::Round => "float.round"@,
        },
        NodeKind::FloatCmpOp(op) => match op {
            FloatCmpOp::Equal => "fcmp.equal"@,
            FloatCmpOp::Less => "fcmp.less"@,
        },
        NodeKind::IntToFloat => "int_to_float"@,
        NodeKind::FloatToInt => "float_to_int"@,
        NodeKind::FloatToFloat => "float_to_float"@,
        NodeKind::IntBitsToFloat => "int_bits_to_float"@,
        NodeKind::FloatBitsToInt => "float_bits_to_int"@,
        NodeKind::SegmentOp { .. } => "segment_op"@,
        NodeKind::CPoolRef => "cpool_ref"@,
        NodeKind::New => "new"@,
        NodeKind::MemProject => "mem_project"@,
        NodeKind::MemUnion => "mem_union"@,
    }
}

/// The name of the operation of a kind.
pub fn op_name(kind: &NodeKind) -> (r: &'static str)
    ensures
        r@ == op_text(*kind),
{
    match *kind {
        NodeKind::Entry => "entry",
        NodeKind::InitialMemory => "initial_memory",
        NodeKind::InitialVar(_) => "initial_var",
        NodeKind::FunctionArg { .. } => "function_arg",
        NodeKind::Region => "region",
        NodeKind::ControlState => "control_state",
        NodeKind::MemPhi => "memphi",
        NodeKind::Phi => "phi",
        NodeKind::If => "if",
        NodeKind::Switch(_) => "switch",
        NodeKind::Call { .. } => "call",
        NodeKind::CallOther { .. } => "callother",
        NodeKind::Return => "return",
        NodeKind::IndirectBranch => "indirect_branch",
        NodeKind::Unreachable => "unreachable",
        NodeKind::Load(_) => "load",
        NodeKind::Store(_) => "store",
        NodeKind::StackStore { .. } => "stack_store",
        NodeKind::StackStorePhi { .. } => "stack_store_phi",
        NodeKind::IntConst(_) => "iconst",
        NodeKind::FloatConst(_) => "fconst",
        NodeKind::BoolConst(_) => "bconst",
        NodeKind::IntUnaryOp(_) => "int.neg",
        NodeKind::IntBinaryOp(op) => match op {
            IntBinaryOp::Add => "int.add",
            IntBinaryOp::And => "int.and",
            IntBinaryOp::Or => "int.or",
            IntBinaryOp::Xor => "int.xor",
            IntBinaryOp::Div => "int.div",
            IntBinaryOp::Sdiv => "int.sdiv",
            IntBinaryOp::Rem => "int.rem",
            IntBinaryOp::Srem => "int.srem",
            IntBinaryOp::ShiftRight => "int.shift_right",
            IntBinaryOp::SShiftRight => "int.sshift_right",
            IntBinaryOp::ShiftLeft => "int.shift_left",
            IntBinaryOp::Mul => "int.mul",
        },
        NodeKind::IntCmpOp(op) => match op {
            IntCmpOp::Equal => "icmp.equal",
            IntCmpOp::Sless => "icmp.sless",
            IntCmpOp::Less => "icmp.less",
            IntCmpOp::Carry => "icmp.carry",
            IntCmpOp::Scarry => "icmp.scarry",
            IntCmpOp::Sborrow => "icmp.sborrow",
        },
        NodeKind::Truncate => "truncate",
        NodeKind::Popcount => "popcount",
        NodeKind::Lzcount => "lzcount",
        NodeKind::Extend(op) => match op {
            ExtendOp::ZeroExtend => "extend.zero",
            ExtendOp::SignExtend => "extend.sign",
        },
        NodeKind::CastToBool => "cast.bool",
        NodeKind::CastToInt => "cast.int",
        NodeKind::CastToFloat => "cast.float",
        NodeKind::BoolBinaryOp(op) => match op {
            BoolBinaryOp::And => "bool.and",
            BoolBinaryOp::Or => "bool.or",
            BoolBinaryOp::Xor => "bool.xor",
        },
        NodeKind::BoolUnaryOp(_) => "bool.not",
        NodeKind::FloatBinaryOp(op) => match op {
            FloatBinaryOp::Add => "float.add",
            FloatBinaryOp::Mul => "float.mul",
            FloatBinaryOp::Div => "float.div",
        },
        NodeKind::FloatUnaryOp(op) => match op {
            FloatUnaryOp::Neg => "float.neg",
            FloatUnaryOp::Abs => "float.abs",
            FloatUnaryOp::Sqrt => "float.sqrt",
            FloatUnaryOp::Ceil => "float.ceil",
            FloatUnaryOp::Floor => "float.floor",
            FloatUnaryOp::Round => "float.round",
        },
        NodeKind::FloatCmpOp(op) => match op {
            FloatCmpOp::Equal => "fcmp.equal",
            FloatCmpOp::Less => "fcmp.less",
        },
        NodeKind::IntToFloat => "int_to_float",
        NodeKind::FloatToInt => "float_to_int",
        NodeKind::FloatToFloat => "float_to_float",
        NodeKind::IntBitsToFloat => "int_bits_to_float",
        NodeKind::FloatBitsToInt => "float_bits_to_int",
        NodeKind::SegmentOp { .. } => "segment_op",
        NodeKind::CPoolRef => "cpool_ref",
        NodeKind::New => "new",
        NodeKind::MemProject => "mem_project",
        NodeKind::MemUnion => "mem_union",
    }
}

/// The name of a value kind.
pub open spec fn value_kind_text(kind: ValueKind) -> Seq<char> {
    match kind {
        ValueKind::Typed(ty) => ty.name(),
        ValueKind::Control => "ctrl"@,
        ValueKind::PhiToken => "token"@,
        ValueKind::Memory => "mem"@,
        ValueKind::MemoryPart(class) => match class {
            AliasClass::Stack => "mem.stack"@,
            AliasClass::Heap => "mem.heap"@,
            AliasClass::Rom => "mem.rom"@,
            AliasClass::Unknown => "mem.unknown"@,
        },
    }
}

/// The name of a value kind.
pub fn value_kind_str(kind: ValueKind) -> (r: &'static str)
    ensures
        r@ == value_kind_text(kind),
{
    match kind {
        ValueKind::Typed(ty) => ty.as_str(),
        ValueKind::Control => "ctrl",
        ValueKind::PhiToken => "token",
        ValueKind::Memory => "mem",
        ValueKind::MemoryPart(class) => match class {
            AliasClass::Stack => "mem.stack",
            AliasClass::Heap => "mem.heap",
            AliasClass::Rom => "mem.rom",
            AliasClass::Unknown => "mem.unknown",
        },
    }
}

/// The visible characters from `!` to `~`, in code order.
pub open spec fn graphic() -> Seq<char> {
    "!\"#$%&'()*+,-./0123456789:;<=>?@ABCDEFGHIJKLMNOPQRSTUVWXYZ[\\]^_`abcdefghijklmnopqrstuvwxyz{|}~"@
}

/// A space by its shortcut: the character where it is a visible one other
/// than the separator, and its number elsewhere.
pub open spec fn space_text(space: VnSpace) -> Seq<char> {
    let b = space.byte();
    if 33 <= b <= 126 && b != 58 {
        graphic().subrange(b - 33, b - 32)
    } else {
        "0x"@ + padded_hex(b as nat, 2)
    }
}

/// A space by its shortcut.
pub fn space_str(space: VnSpace) -> (r: String)
    ensures
        r@ == space_text(space),
{
    let b = space.shortcut_raw();
    if 33 <= b && b <= 126 && b != 58 {
        let all =
            "!\"#$%&'()*+,-./0123456789:;<=>?@ABCDEFGHIJKLMNOPQRSTUVWXYZ[\\]^_`abcdefghijklmnopqrstuvwxyz{|}~";
        proof {
            reveal_strlit(
                "!\"#$%&'()*+,-./0123456789:;<=>?@ABCDEFGHIJKLMNOPQRSTUVWXYZ[\\]^_`abcdefghijklmnopqrstuvwxyz{|}~",
            );
        }
        let one = all.substring_char((b - 33) as usize, (b - 32) as usize);
        one.to_owned()
    } else {
        let mut s = String::new();
        s.append("0x");
        push_padded_hex(&mut s, b as u64, 2);
        assert(s@ =~= space_text(space));
        s
    }
}

/// A varnode as `space:offset:size`.
pub open spec fn vn_text(vn: Vn) -> Seq<char> {
    space_text(vn.addr_space) + ":"@ + hex0x(vn.addr_off as nat) + ":"@ + dec(vn.size as nat)
}

/// A varnode as `space:offset:size`.
pub fn vn_str(vn: &Vn) -> (r: String)
    ensures
        r@ == vn_text(*vn),
{
    let mut s = space_str(vn.addr_space);
    s.append(":");
    push_hex0x(&mut s, vn.addr_off as u128);
    s.append(":");
    push_dec(&mut s, vn.size as u128);
    s
}

/// Varnodes with commas between them.
pub open spec fn vns_joined(vns: Seq<Vn>) -> Seq<char>
    decreases vns.len(),
{
    if vns.len() == 0 {
        Seq::empty()
    } else if vns.len() == 1 {
        vn_text(vns[0])
    } else {
        vns_joined(vns.drop_last()) + ", "@ + vn_text(vns.last())
    }
}

/// A list of varnodes in brackets.
pub open spec fn vn_list_text(vns: Seq<Vn>) -> Seq<char> {
    "["@ + vns_joined(vns) + "]"@
}

/// A list of varnodes in brackets.
pub fn vn_list(vns: &[Vn]) -> (r: String)
    ensures
        r@ == vn_list_text(vns@),
{
    let mut s = String::new();
    s.append("[");
    let ghost open = s@;
    assert(open =~= "["@);
    let mut i: usize = 0;
    assert(vns@.take(0) =~= Seq::<Vn>::empty());
    assert(s@ =~= open + vns_joined(vns@.take(0)));
    while i < vns.len()
        invariant
            i <= vns.len(),
            s@ == open + vns_joined(vns@.take(i as int)),
        decreases vns.len() - i,
    {
        proof {
            let next = vns@.take(i + 1);
            assert(next.drop_last() =~= vns@.take(i as int));
            assert(next.last() == vns@[i as int]);
        }
        if i > 0 {
            s.append(", ");
        }
        let one = vn_str(&vns[i]);
        s.append(one.as_str());
        i += 1;
        assert(s@ =~= open + vns_joined(vns@.take(i as int)));
    }
    assert(vns@.take(i as int) =~= vns@);
    s.append("]");
    assert(s@ =~= vn_list_text(vns@));
    s
}

/// A constant in hexadecimal.
pub open spec fn const_text(c: ConstModel) -> Seq<char> {
    hex0x(const_number(c))
}

/// The number the limbs from `i` on spell.
proof fn lemma_limbs_split(limbs: Seq<u64>, i: int)
    requires
        0 <= i < limbs.len(),
    ensures
        limbs_value(limbs.skip(i)) == limbs[i] as nat + 0x1_0000_0000_0000_0000nat * limbs_value(
            limbs.skip(i + 1),
        ),
{
    let s = limbs.skip(i);
    assert(s[0] == limbs[i]);
    assert(s.skip(1) =~= limbs.skip(i + 1));
}

/// A constant in hexadecimal, the highest limb first.
pub fn const_str(value: &ConstValue) -> (r: String)
    ensures
        r@ == const_text(value@),
{
    let mut s = String::new();
    match value {
        ConstValue::Bits(bits) => {
            push_hex0x(&mut s, *bits);
            assert(s@ =~= const_text(value@));
        },
        ConstValue::Wide(limbs) => {
            s.append("0x");
            let ghost prefix = s@;
            assert(prefix =~= "0x"@);
            let mut i: usize = limbs.len();
            assert(limbs@.skip(i as int) =~= Seq::<u64>::empty());
            while i > 0 && limbs[i - 1] == 0
                invariant
                    i <= limbs.len(),
                    limbs_value(limbs@.skip(i as int)) == 0,
                decreases i,
            {
                proof {
                    lemma_limbs_split(limbs@, i - 1);
                }
                i -= 1;
            }
            if i == 0 {
                assert(limbs@.skip(0) =~= limbs@);
                push_hex(&mut s, 0);
                assert(s@ =~= const_text(value@));
            } else {
                i -= 1;
                proof {
                    lemma_limbs_split(limbs@, i as int);
                }
                push_hex(&mut s, limbs[i] as u128);
                while i > 0
                    invariant
                        i < limbs.len(),
                        limbs_value(limbs@.skip(i as int)) > 0,
                        s@ == prefix + hex(limbs_value(limbs@.skip(i as int))),
                    decreases i,
                {
                    i -= 1;
                    let ghost before = s@;
                    push_padded_hex(&mut s, limbs[i], 16);
                    proof {
                        lemma_limbs_split(limbs@, i as int);
                        lemma_pow16_limb();
                        let a = limbs_value(limbs@.skip(i + 1));
                        let b = limbs@[i as int] as nat;
                        lemma_hex_concat(a, b, 16);
                        assert(a * crate::fmt::pow16(16) + b == limbs_value(
                            limbs@.skip(i as int),
                        )) by (nonlinear_arith)
                            requires
                                crate::fmt::pow16(16) == 0x1_0000_0000_0000_0000,
                                limbs_value(limbs@.skip(i as int)) == b
                                    + 0x1_0000_0000_0000_0000nat * a,
                        ;
                        assert(s@ =~= prefix + hex(limbs_value(limbs@.skip(i as int))));
                    }
                }
                assert(limbs@.skip(0) =~= limbs@);
                assert(s@ =~= const_text(value@));
            }
        },
    }
    s
}

// -- conventions -------------------------------------------------------------------

/// Where a convention puts stack arguments.
pub open spec fn stack_args_text(cc: CcModel) -> Seq<char> {
    match cc.stack_args {
        Some(s) => signed_dec(s.base_offset as int) + "+"@ + signed_dec(s.increment as int) + "n"@,
        None => "none"@,
    }
}

/// The link register of a convention.
pub open spec fn link_text(cc: CcModel) -> Seq<char> {
    match cc.link_register_vn {
        Some(vn) => vn_text(vn),
        None => "none"@,
    }
}

/// The fields of a convention, in order, each with its text.
pub open spec fn cc_field_texts(cc: CcModel) -> Seq<(Seq<char>, Seq<char>)> {
    seq![
        ("arg_passing_regs"@, vn_list_text(cc.arg_passing_regs)),
        ("arg_passing_regs_float"@, vn_list_text(cc.arg_passing_regs_float)),
        ("callee_saved_regs"@, vn_list_text(cc.callee_saved_regs)),
        ("ret_val_regs"@, vn_list_text(cc.ret_val_regs)),
        ("ret_val_regs_float"@, vn_list_text(cc.ret_val_regs_float)),
        ("stack_vn"@, vn_text(cc.stack_vn)),
        ("stack_args"@, stack_args_text(cc)),
        ("ret_stack_pop"@, signed_dec(cc.ret_stack_pop as int)),
        ("link_register_vn"@, link_text(cc)),
        ("preserves_memory"@, bool_text(cc.preserves_memory)),
        ("preserves_all_registers"@, bool_text(cc.preserves_all_registers)),
        ("no_return"@, bool_text(cc.no_return)),
    ]
}

/// A list of fields spells `texts`.
pub open spec fn spells(fields: Seq<(&'static str, String)>, texts: Seq<(Seq<char>, Seq<char>)>) -> bool {
    &&& fields.len() == texts.len()
    &&& forall|i: int|
        0 <= i < fields.len() ==> (#[trigger] fields[i]).0@ == texts[i].0 && fields[i].1@
            == texts[i].1
}

fn bool_string(b: bool) -> (r: String)
    ensures
        r@ == bool_text(b),
{
    let mut s = String::new();
    push_bool(&mut s, b);
    assert(s@ =~= bool_text(b));
    s
}

/// Every field of a convention, in declaration order, with its text.
pub fn cc_fields(cc: &BuiltCallingConvention) -> (r: Vec<(&'static str, String)>)
    ensures
        spells(r@, cc_field_texts(cc@)),
{
    let stack_args = match cc.stack_args {
        None => "none".to_owned(),
        Some(a) => {
            let mut s = String::new();
            push_signed(&mut s, a.base_offset);
            s.append("+");
            push_signed(&mut s, a.increment);
            s.append("n");
            assert(s@ =~= stack_args_text(cc@));
            s
        },
    };
    let link = match cc.link_register_vn {
        None => "none".to_owned(),
        Some(vn) => vn_str(&vn),
    };
    let mut pop = String::new();
    push_signed(&mut pop, cc.ret_stack_pop);
    assert(pop@ =~= signed_dec(cc.ret_stack_pop as int));
    let mut r: Vec<(&'static str, String)> = Vec::new();
    r.push(("arg_passing_regs", vn_list(&cc.arg_passing_regs)));
    r.push(("arg_passing_regs_float", vn_list(&cc.arg_passing_regs_float)));
    r.push(("callee_saved_regs", vn_list(&cc.callee_saved_regs)));
    r.push(("ret_val_regs", vn_list(&cc.ret_val_regs)));
    r.push(("ret_val_regs_float", vn_list(&cc.ret_val_regs_float)));
    r.push(("stack_vn", vn_str(&cc.stack_vn)));
    r.push(("stack_args", stack_args));
    r.push(("ret_stack_pop", pop));
    r.push(("link_register_vn", link));
    r.push(("preserves_memory", bool_string(cc.preserves_memory)));
    r.push(("preserves_all_registers", bool_string(cc.preserves_all_registers)));
    r.push(("no_return", bool_string(cc.no_return)));
    r
}

/// The first `n` fields as ` name=text` each.
pub open spec fn all_fields_text(texts: Seq<(Seq<char>, Seq<char>)>, n: int) -> Seq<char>
    decreases n,
{
    if n <= 0 {
        Seq::empty()
    } else {
        all_fields_text(texts, n - 1) + " "@ + texts[n - 1].0 + "="@ + texts[n - 1].1
    }
}

/// Whether one of the first `n` fields differs.
pub open spec fn some_differ(
    a: Seq<(Seq<char>, Seq<char>)>,
    b: Seq<(Seq<char>, Seq<char>)>,
    n: int,
) -> bool
    decreases n,
{
    n > 0 && (some_differ(a, b, n - 1) || a[n - 1].1 != b[n - 1].1)
}

/// Those of the first `n` fields of `a` that differ from `b`, as `name=text`
/// with spaces between them.
pub open spec fn differing_text(
    a: Seq<(Seq<char>, Seq<char>)>,
    b: Seq<(Seq<char>, Seq<char>)>,
    n: int,
) -> Seq<char>
    decreases n,
{
    if n <= 0 {
        Seq::empty()
    } else if a[n - 1].1 == b[n - 1].1 {
        differing_text(a, b, n - 1)
    } else {
        differing_text(a, b, n - 1) + (if some_differ(a, b, n - 1) {
            " "@
        } else {
            Seq::empty()
        }) + a[n - 1].0 + "="@ + a[n - 1].1
    }
}

// -- payloads ------------------------------------------------------------------------

/// How a string prints with quotes around it and its special characters
/// escaped.
pub uninterp spec fn quoted_text(s: Seq<char>) -> Seq<char>;

/// `format!("{:?}")` on a string: the string in quotes, escaped. Which
/// characters are escaped, and how, is left unsaid.
#[verifier::external_body]
fn quoted(s: &str) -> (r: String)
    ensures
        r@ == quoted_text(s@),
{
    format!("{s:?}")
}

/// Addresses with commas between them.
pub open spec fn addrs_joined(addrs: Seq<u64>) -> Seq<char>
    decreases addrs.len(),
{
    if addrs.len() == 0 {
        Seq::empty()
    } else if addrs.len() == 1 {
        hex0x(addrs[0] as nat)
    } else {
        addrs_joined(addrs.drop_last()) + ", "@ + hex0x(addrs.last() as nat)
    }
}

fn push_addrs(out: &mut String, addrs: &[u64])
    ensures
        final(out)@ == old(out)@ + addrs_joined(addrs@),
{
    let ghost start = out@;
    let mut i: usize = 0;
    assert(addrs@.take(0) =~= Seq::<u64>::empty());
    assert(out@ =~= start + addrs_joined(addrs@.take(0)));
    while i < addrs.len()
        invariant
            i <= addrs.len(),
            out@ == start + addrs_joined(addrs@.take(i as int)),
        decreases addrs.len() - i,
    {
        proof {
            let next = addrs@.take(i + 1);
            assert(next.drop_last() =~= addrs@.take(i as int));
            assert(next.last() == addrs@[i as int]);
        }
        if i > 0 {
            out.append(", ");
        }
        push_hex0x(out, addrs[i] as u128);
        i += 1;
        assert(out@ =~= start + addrs_joined(addrs@.take(i as int)));
    }
    assert(addrs@.take(i as int) =~= addrs@);
}

/// The payload of a node, where its kind has one.
pub open spec fn payload(f: &Function, n: NodeId) -> Option<Seq<char>> {
    match f.g().kind(n) {
        NodeKind::InitialVar(id) => match f.vn_at(id) {
            Some(vn) => Some(vn_text(vn)),
            None => Some("?"@),
        },
        NodeKind::FunctionArg { source, index } => Some(dec(index as nat)),
        NodeKind::Load(space) => Some(space_text(space)),
        NodeKind::Store(space) => Some(space_text(space)),
        NodeKind::StackStore { space, offset } => Some(
            space_text(space) + ":"@ + signed_dec(offset as int),
        ),
        NodeKind::StackStorePhi { space } => Some(space_text(space)),
        NodeKind::IntConst(id) => match f.const_of(n) {
            Some(c) => Some(const_text(c)),
            None => Some("?"@),
        },
        NodeKind::FloatConst(bits) => Some(hex0x(bits as nat)),
        NodeKind::BoolConst(b) => Some(bool_text(b)),
        NodeKind::Switch(id) => if id.0 < f.switches().len() {
            Some(addrs_joined(f.switches()[id.0 as int]))
        } else {
            Some("?"@)
        },
        NodeKind::Call { cc: Some(id) } => if id.0 < f.ccs().len() {
            Some(
                differing_text(
                    cc_field_texts(f.ccs()[id.0 as int]),
                    cc_field_texts(f.cc_default()@),
                    12,
                ),
            )
        } else {
            Some("?"@)
        },
        NodeKind::CallOther { user_op_id } => match f.user_op_name(n) {
            Some(name) => Some(dec(user_op_id as nat) + " "@ + quoted_text(name)),
            None => Some(dec(user_op_id as nat)),
        },
        NodeKind::SegmentOp { op_id } => Some(dec(op_id as nat)),
        _ => None,
    }
}

/// The payload of a node in brackets, where its kind has one.
pub open spec fn payload_text(f: &Function, n: NodeId) -> Seq<char> {
    match payload(f, n) {
        Some(t) => "["@ + t + "]"@,
        None => Seq::empty(),
    }
}

/// Appends the fields of `cc` that differ from the default ones.
fn push_differing(
    out: &mut String,
    fields: &Vec<(&'static str, String)>,
    default: &Vec<(&'static str, String)>,
    Ghost(a): Ghost<Seq<(Seq<char>, Seq<char>)>>,
    Ghost(b): Ghost<Seq<(Seq<char>, Seq<char>)>>,
)
    requires
        spells(fields@, a),
        spells(default@, b),
        a.len() == b.len(),
    ensures
        final(out)@ == old(out)@ + differing_text(a, b, a.len() as int),
{
    let ghost start = out@;
    let mut first = true;
    let mut i: usize = 0;
    assert(out@ =~= start + differing_text(a, b, 0));
    while i < fields.len()
        invariant
            i <= fields.len(),
            spells(fields@, a),
            spells(default@, b),
            a.len() == b.len(),
            first == !some_differ(a, b, i as int),
            out@ == start + differing_text(a, b, i as int),
        decreases fields.len() - i,
    {
        let (name, text) = &fields[i];
        let (_, other) = &default[i];
        let same = *text == *other;
        if !same {
            if !first {
                out.append(" ");
            }
            first = false;
            out.append(name);
            out.append("=");
            out.append(text.as_str());
        }
        i += 1;
        assert(out@ =~= start + differing_text(a, b, i as int));
    }
}

fn dec_string(n: u128) -> (r: String)
    ensures
        r@ == dec(n as nat),
{
    let mut s = String::new();
    push_dec(&mut s, n);
    assert(s@ =~= dec(n as nat));
    s
}

fn hex0x_string(n: u128) -> (r: String)
    ensures
        r@ == hex0x(n as nat),
{
    let mut s = String::new();
    push_hex0x(&mut s, n);
    assert(s@ =~= hex0x(n as nat));
    s
}

/// A string holds `text`, if there is one.
pub open spec fn holds(s: Option<String>, text: Option<Seq<char>>) -> bool {
    match (s, text) {
        (Some(s), Some(t)) => s@ == t,
        (None, None) => true,
        _ => false,
    }
}

/// The payload of a node, where its kind has one.
fn payload_of(f: &Function, node: NodeId, default_cc: &Vec<(&'static str, String)>) -> (r: Option<
    String,
>)
    requires
        f.wf(),
        f.g().has_node(node),
        spells(default_cc@, cc_field_texts(f.cc_default()@)),
    ensures
        holds(r, payload(f, node)),
{
    match *f.node_kind(node) {
        NodeKind::InitialVar(id) => match f.initial_vn_opt(id) {
            Some(vn) => Some(vn_str(&vn)),
            None => Some("?".to_owned()),
        },
        NodeKind::FunctionArg { source, index } => Some(dec_string(index as u128)),
        NodeKind::Load(space) => Some(space_str(space)),
        NodeKind::Store(space) => Some(space_str(space)),
        NodeKind::StackStorePhi { space } => Some(space_str(space)),
        NodeKind::StackStore { space, offset } => {
            let mut text = space_str(space);
            text.append(":");
            push_signed(&mut text, offset);
            Some(text)
        },
        NodeKind::IntConst(id) => match f.const_value_opt(id) {
            None => Some("?".to_owned()),
            Some(stored) => match stored.fits_u128() {
                Some(bits) => Some(hex0x_string(bits)),
                None => Some(const_str(stored)),
            },
        },
        NodeKind::FloatConst(bits) => Some(hex0x_string(bits as u128)),
        NodeKind::BoolConst(b) => Some(bool_string(b)),
        NodeKind::Switch(id) => match f.switch_table(id) {
            Some(targets) => {
                let mut text = String::new();
                push_addrs(&mut text, targets);
                assert(text@ =~= addrs_joined(targets@));
                Some(text)
            },
            None => Some("?".to_owned()),
        },
        NodeKind::Call { cc: Some(id) } => match f.cc(id) {
            Some(cc) => {
                let fields = cc_fields(cc);
                let mut text = String::new();
                push_differing(
                    &mut text,
                    &fields,
                    default_cc,
                    Ghost(cc_field_texts(cc@)),
                    Ghost(cc_field_texts(f.cc_default()@)),
                );
                assert(text@ =~= differing_text(
                    cc_field_texts(cc@),
                    cc_field_texts(f.cc_default()@),
                    12,
                ));
                Some(text)
            },
            None => Some("?".to_owned()),
        },
        NodeKind::CallOther { user_op_id } => {
            let mut text = dec_string(user_op_id as u128);
            match f.call_other_name(node) {
                Some(op) => {
                    text.append(" ");
                    let name = quoted(op);
                    text.append(name.as_str());
                },
                None => {},
            }
            Some(text)
        },
        NodeKind::SegmentOp { op_id } => Some(dec_string(op_id as u128)),
        _ => None,
    }
}

/// Appends the payload of a node.
pub fn render_payload(
    f: &Function,
    node: NodeId,
    default_cc: &Vec<(&'static str, String)>,
    out: &mut String,
)
    requires
        f.wf(),
        f.g().has_node(node),
        spells(default_cc@, cc_field_texts(f.cc_default()@)),
    ensures
        final(out)@ == old(out)@ + payload_text(f, node),
{
    let ghost start = out@;
    match payload_of(f, node, default_cc) {
        Some(text) => {
            out.append("[");
            out.append(text.as_str());
            out.append("]");
            assert(out@ =~= start + payload_text(f, node));
        },
        None => {
            assert(out@ =~= start + payload_text(f, node));
        },
    }
}

// -- values by name ---------------------------------------------------------------------

/// The values defined by nodes of `order`, in print order.
pub open spec fn printed(g: GraphModel, order: Seq<NodeId>) -> Seq<ValueId>
    decreases order.len(),
{
    if order.len() == 0 {
        Seq::empty()
    } else {
        printed(g, order.drop_last()) + g.outs(order.last())
    }
}

/// The number a value prints under.
pub open spec fn value_number(g: GraphModel, order: Seq<NodeId>, v: ValueId) -> Option<nat> {
    if printed(g, order).contains(v) {
        Some(printed(g, order).index_of(v) as nat)
    } else {
        None
    }
}

/// The name a value prints under.
pub open spec fn value_name(g: GraphModel, order: Seq<NodeId>, v: ValueId) -> Seq<char> {
    match value_number(g, order, v) {
        Some(n) => "%v"@ + dec(n),
        None => "%?"@,
    }
}

/// Distinct nodes define distinct values.
pub(crate) proof fn lemma_printed(g: GraphModel, order: Seq<NodeId>)
    requires
        g.valid(),
        order.no_duplicates(),
        forall|i: int| 0 <= i < order.len() ==> g.has_node(#[trigger] order[i]),
    ensures
        printed(g, order).no_duplicates(),
        printed(g, order).len() <= g.values.len(),
        forall|k: int|
            0 <= k < printed(g, order).len() ==> g.has_value(#[trigger] printed(g, order)[k])
                && order.contains(g.producer(printed(g, order)[k])),
    decreases order.len(),
{
    if order.len() > 0 {
        let rest = order.drop_last();
        let last = order.last();
        assert(order[order.len() - 1] == last);
        assert forall|i: int| 0 <= i < rest.len() implies g.has_node(#[trigger] rest[i]) by {
            assert(rest[i] == order[i]);
        }
        lemma_printed(g, rest);
        let a = printed(g, rest);
        let b = g.outs(last);
        let all = printed(g, order);
        assert forall|k: int| 0 <= k < b.len() implies g.has_value(#[trigger] b[k]) && g.producer(
            b[k],
        ) == last && g.values[b[k].0 as int].index == k by {
            assert(g.output_ok(last.0 as int, k)) by {
                assert(g.nodes[last.0 as int].outputs[k] == b[k]);
            }
        }
        assert forall|k: int| 0 <= k < all.len() implies g.has_value(#[trigger] all[k])
            && order.contains(g.producer(all[k])) by {
            if k < a.len() {
                assert(all[k] == a[k]);
                let j = rest.index_of(g.producer(a[k]));
                assert(order[j] == g.producer(a[k]));
            } else {
                assert(all[k] == b[k - a.len()]);
            }
        }
        assert forall|i: int, j: int| 0 <= i < j < all.len() implies all[i] != all[j] by {
            if j < a.len() {
                assert(all[i] == a[i] && all[j] == a[j]);
            } else if i >= a.len() {
                assert(all[i] == b[i - a.len()] && all[j] == b[j - a.len()]);
            } else {
                assert(all[i] == a[i] && all[j] == b[j - a.len()]);
                let x = rest.index_of(g.producer(a[i]));
                assert(rest[x] == order[x]);
                assert(order[x] != order[order.len() - 1]);
            }
        }
        let at = Seq::new(all.len(), |i: int| all[i].0 as int);
        assert forall|i: int, j: int| 0 <= i < j < at.len() implies at[i] != at[j] by {
            assert(all[i] != all[j]);
        }
        assert forall|i: int| 0 <= i < at.len() implies 0 <= #[trigger] at[i] < g.values.len() by {
            assert(g.has_value(all[i]));
        }
        lemma_distinct_ints(at, g.values.len());
    }
}

/// The numbers of values by id.
pub struct Names {
    pub numbers: Vec<Option<u32>>,
}

impl Names {
    /// The table says of every value of `g` its number in `seq`.
    pub open spec fn number(&self, g: GraphModel, seq: Seq<ValueId>) -> bool {
        &&& self.numbers@.len() == g.values.len()
        &&& forall|v: int|
            0 <= v < self.numbers@.len() ==> match #[trigger] self.numbers@[v] {
                Some(k) => k < seq.len() && seq[k as int].0 == v,
                None => !seq.contains(ValueId(v as u32)),
            }
    }

    /// The number of a value.
    pub fn get(&self, value: ValueId, Ghost(g): Ghost<GraphModel>, Ghost(order): Ghost<
        Seq<NodeId>,
    >) -> (r: Option<u32>)
        requires
            self.number(g, printed(g, order)),
            printed(g, order).no_duplicates(),
            g.has_value(value),
        ensures
            match r {
                Some(k) => value_number(g, order, value) == Some(k as nat),
                None => value_number(g, order, value) is None,
            },
    {
        proof {
            let seq = printed(g, order);
            if let Some(k) = self.numbers@[value.0 as int] {
                assert(seq[k as int] == value);
                assert(seq.contains(value));
                let j = seq.index_of(value);
                assert(seq[j] == seq[k as int]);
            }
        }
        self.numbers[value.0 as usize]
    }
}

/// Numbers the values that the nodes of `order` define.
fn number_values(f: &Function, order: &[NodeId]) -> (r: Names)
    requires
        f.wf(),
        order@.no_duplicates(),
        forall|i: int| 0 <= i < order@.len() ==> f.g().has_node(#[trigger] order@[i]),
    ensures
        r.number(f.g(), printed(f.g(), order@)),
        printed(f.g(), order@).no_duplicates(),
{
    let ghost g = f.g();
    proof {
        f.lemma_wf();
        lemma_printed(g, order@);
    }
    let count = f.graph().value_count();
    let mut numbers: Vec<Option<u32>> = Vec::new();
    let mut k: usize = 0;
    while k < count
        invariant
            k <= count,
            numbers@.len() == k,
            forall|x: int| 0 <= x < k ==> (#[trigger] numbers@[x]) is None,
        decreases count - k,
    {
        numbers.push(None);
        k += 1;
    }
    let mut names = Names { numbers };
    let mut next: u32 = 0;
    let mut i: usize = 0;
    assert(order@.take(0) =~= Seq::<NodeId>::empty());
    while i < order.len()
        invariant
            f.wf(),
            g == f.g(),
            g.valid(),
            order@.no_duplicates(),
            forall|x: int| 0 <= x < order@.len() ==> g.has_node(#[trigger] order@[x]),
            i <= order.len(),
            next == printed(g, order@.take(i as int)).len(),
            names.number(g, printed(g, order@.take(i as int))),
        decreases order.len() - i,
    {
        let node = order[i];
        let outs = f.node_outputs(node);
        let ghost base = printed(g, order@.take(i as int));
        let ghost whole = printed(g, order@.take(i + 1));
        proof {
            let part = order@.take(i + 1);
            assert(part.drop_last() =~= order@.take(i as int));
            assert(part.last() == node);
            assert forall|x: int| 0 <= x < part.len() implies g.has_node(#[trigger] part[x]) by {
                assert(part[x] == order@[x]);
            }
            lemma_printed(g, part);
            assert(whole == base + outs@);
            assert(base + outs@.take(0) =~= base);
        }
        let mut j: usize = 0;
        while j < outs.len()
            invariant
                g.valid(),
                j <= outs.len(),
                forall|x: int| 0 <= x < outs@.len() ==> g.has_value(#[trigger] outs@[x]),
                whole == base + outs@,
                whole.no_duplicates(),
                whole.len() <= g.values.len(),
                next == base.len() + j,
                names.number(g, base + outs@.take(j as int)),
            decreases outs.len() - j,
        {
            let v = outs[j];
            let ghost seq = base + outs@.take(j as int);
            let ghost before = names.numbers@;
            names.numbers.set(v.0 as usize, Some(next));
            proof {
                let seq2 = base + outs@.take(j + 1);
                assert(seq2 =~= seq.push(v));
                assert forall|x: int| 0 <= x < names.numbers@.len() implies match #[trigger]
                names.numbers@[x] {
                    Some(n) => n < seq2.len() && seq2[n as int].0 == x,
                    None => !seq2.contains(ValueId(x as u32)),
                } by {
                    if x != v.0 {
                        assert(names.numbers@[x] == before[x]);
                        if before[x] is None && seq2.contains(ValueId(x as u32)) {
                            let y = seq2.index_of(ValueId(x as u32));
                            if y < seq.len() {
                                assert(seq[y] == ValueId(x as u32));
                            }
                        }
                    } else {
                        assert(seq2[next as int] == v);
                    }
                }
            }
            next += 1;
            j += 1;
        }
        assert(outs@.take(j as int) =~= outs@);
        i += 1;
    }
    assert(order@.take(i as int) =~= order@);
    names
}

/// Appends the name of a value.
fn push_name(
    out: &mut String,
    names: &Names,
    value: ValueId,
    Ghost(g): Ghost<GraphModel>,
    Ghost(order): Ghost<Seq<NodeId>>,
)
    requires
        names.number(g, printed(g, order)),
        printed(g, order).no_duplicates(),
        g.has_value(value),
    ensures
        final(out)@ == old(out)@ + value_name(g, order, value),
{
    let ghost start = out@;
    match names.get(value, Ghost(g), Ghost(order)) {
        Some(n) => {
            out.append("%v");
            push_dec(out, n as u128);
        },
        None => {
            out.append("%?");
        },
    }
    assert(out@ =~= start + value_name(g, order, value));
}

// -- arguments ----------------------------------------------------------------------------

/// One of `vs` prints under number `x`.
pub open spec fn carried(g: GraphModel, order: Seq<NodeId>, vs: Seq<ValueId>, x: u64) -> bool {
    exists|i: int|
        0 <= i < vs.len() && value_number(g, order, #[trigger] vs[i]) == Some(x as nat)
}

/// `s` lists the numbers under which values of `vs` print, ascending.
pub open spec fn lists_numbers(
    g: GraphModel,
    order: Seq<NodeId>,
    vs: Seq<ValueId>,
    s: Seq<u64>,
) -> bool {
    ascending(s) && forall|x: u64| #[trigger] s.contains(x) <==> carried(g, order, vs, x)
}

/// The numbers under which values of `vs` print, ascending.
pub open spec fn numbers_of(g: GraphModel, order: Seq<NodeId>, vs: Seq<ValueId>) -> Seq<u64> {
    choose|s: Seq<u64>| lists_numbers(g, order, vs, s)
}

/// Value names with commas between them.
pub open spec fn numbers_joined(ns: Seq<u64>) -> Seq<char>
    decreases ns.len(),
{
    if ns.len() == 0 {
        Seq::empty()
    } else if ns.len() == 1 {
        "%v"@ + dec(ns[0] as nat)
    } else {
        numbers_joined(ns.drop_last()) + ", "@ + ("%v"@ + dec(ns.last() as nat))
    }
}

/// The line of an argument: its index and the values that carry it. Nothing
/// where none of them prints.
pub open spec fn arg_line(
    f: &Function,
    order: Seq<NodeId>,
    label: Seq<char>,
    class: ArgClass,
    index: nat,
) -> Seq<char> {
    let ns = numbers_of(f.g(), order, f.tables().carriers(class, index as u32));
    if ns.len() == 0 {
        Seq::empty()
    } else {
        label + " "@ + dec(index) + " ["@ + numbers_joined(ns) + "]\n"@
    }
}

/// The lines of the arguments below `n`.
pub open spec fn arg_lines(
    f: &Function,
    order: Seq<NodeId>,
    label: Seq<char>,
    class: ArgClass,
    n: nat,
) -> Seq<char>
    decreases n,
{
    if n == 0 {
        Seq::empty()
    } else {
        arg_lines(f, order, label, class, (n - 1) as nat) + arg_line(
            f,
            order,
            label,
            class,
            (n - 1) as nat,
        )
    }
}

/// The number of argument indices there are.
pub open spec fn index_count() -> nat {
    0x1_0000_0000
}

/// Arguments without carriers have no lines.
proof fn lemma_arg_gap(
    f: &Function,
    order: Seq<NodeId>,
    label: Seq<char>,
    class: ArgClass,
    a: nat,
    b: nat,
)
    requires
        a <= b <= index_count(),
        forall|i: u32| a <= i < b ==> (#[trigger] f.tables().carriers(class, i)).len() == 0,
    ensures
        arg_lines(f, order, label, class, b) == arg_lines(f, order, label, class, a),
    decreases b - a,
{
    if a < b {
        lemma_arg_gap(f, order, label, class, a, (b - 1) as nat);
        let i = (b - 1) as u32;
        let vs = f.tables().carriers(class, i);
        assert(vs.len() == 0);
        let empty = Seq::<u64>::empty();
        assert(lists_numbers(f.g(), order, vs, empty));
        let ns = numbers_of(f.g(), order, vs);
        assert(lists_numbers(f.g(), order, vs, ns));
        lemma_ascending_unique(ns, empty);
        assert(arg_line(f, order, label, class, (b - 1) as nat) =~= Seq::<char>::empty());
        assert(arg_lines(f, order, label, class, b) =~= arg_lines(f, order, label, class, a));
    }
}

/// The numbers under which values of `vs` print, ascending.
fn numbers_in_order(
    names: &Names,
    vs: &[ValueId],
    Ghost(g): Ghost<GraphModel>,
    Ghost(order): Ghost<Seq<NodeId>>,
) -> (r: Vec<u64>)
    requires
        names.number(g, printed(g, order)),
        printed(g, order).no_duplicates(),
        forall|i: int| 0 <= i < printed(g, order).len() ==> g.has_value(#[trigger] printed(g, order)[i]),
    ensures
        r@ == numbers_of(g, order, vs@),
{
    let mut r: Vec<u64> = Vec::new();
    let mut i: usize = 0;
    while i < vs.len()
        invariant
            i <= vs.len(),
            names.number(g, printed(g, order)),
            printed(g, order).no_duplicates(),
            forall|k: int|
                0 <= k < printed(g, order).len() ==> g.has_value(
                    #[trigger] printed(g, order)[k],
                ),
            ascending(r@),
            forall|x: u64|
                #[trigger] r@.contains(x) <==> carried(g, order, vs@.take(i as int), x),
        decreases vs.len() - i,
    {
        let v = vs[i];
        let ghost before = r@;
        let ghost part = vs@.take(i as int);
        let ghost whole = vs@.take(i + 1);
        if (v.0 as usize) < names.numbers.len() {
            if let Some(n) = names.get(v, Ghost(g), Ghost(order)) {
                insert_ascending(&mut r, n as u64);
            }
        } else {
            proof {
                if printed(g, order).contains(v) {
                    let k = printed(g, order).index_of(v);
                    assert(g.has_value(printed(g, order)[k]));
                }
            }
        }
        proof {
            assert forall|x: u64| #[trigger] r@.contains(x) <==> carried(g, order, whole, x) by {
                assert(before.contains(x) <==> carried(g, order, part, x));
                if carried(g, order, part, x) {
                    let k = choose|k: int|
                        0 <= k < part.len() && value_number(g, order, #[trigger] part[k]) == Some(
                            x as nat,
                        );
                    assert(whole[k] == part[k]);
                }
                if value_number(g, order, v) == Some(x as nat) {
                    assert(whole[i as int] == v);
                }
                if carried(g, order, whole, x) {
                    let k = choose|k: int|
                        0 <= k < whole.len() && value_number(g, order, #[trigger] whole[k])
                            == Some(x as nat);
                    if k < i {
                        assert(part[k] == whole[k]);
                    } else {
                        assert(whole[k] == v);
                    }
                }
            }
        }
        i += 1;
    }
    proof {
        assert(vs@.take(i as int) =~= vs@);
        assert(lists_numbers(g, order, vs@, r@));
        let ns = numbers_of(g, order, vs@);
        assert(lists_numbers(g, order, vs@, ns));
        lemma_ascending_unique(ns, r@);
    }
    r
}

/// Writes the line of an argument.
fn push_arg_line(out: &mut String, label: &str, index: u32, ns: &Vec<u64>)
    ensures
        final(out)@ == old(out)@ + (label@ + " "@ + dec(index as nat) + " ["@ + numbers_joined(ns@)
            + "]\n"@),
{
    let ghost start = out@;
    out.append(label);
    out.append(" ");
    push_dec(out, index as u128);
    out.append(" [");
    let ghost open = out@;
    let mut i: usize = 0;
    assert(ns@.take(0) =~= Seq::<u64>::empty());
    assert(out@ =~= open + numbers_joined(ns@.take(0)));
    while i < ns.len()
        invariant
            i <= ns.len(),
            out@ == open + numbers_joined(ns@.take(i as int)),
        decreases ns.len() - i,
    {
        proof {
            let next = ns@.take(i + 1);
            assert(next.drop_last() =~= ns@.take(i as int));
            assert(next.last() == ns@[i as int]);
        }
        if i > 0 {
            out.append(", ");
        }
        out.append("%v");
        push_dec(out, ns[i] as u128);
        i += 1;
        assert(out@ =~= open + numbers_joined(ns@.take(i as int)));
    }
    assert(ns@.take(i as int) =~= ns@);
    out.append("]\n");
    assert(out@ =~= start + (label@ + " "@ + dec(index as nat) + " ["@ + numbers_joined(ns@)
        + "]\n"@));
}

/// Appends `<label> <index> [carriers]` for every argument of a class, indices
/// ascending, carriers in print order.
fn render_args(
    out: &mut String,
    names: &Names,
    label: &str,
    f: &Function,
    class: ArgClass,
    Ghost(order): Ghost<Seq<NodeId>>,
)
    requires
        f.wf(),
        names.number(f.g(), printed(f.g(), order)),
        printed(f.g(), order).no_duplicates(),
        forall|i: int|
            0 <= i < printed(f.g(), order).len() ==> f.g().has_value(
                #[trigger] printed(f.g(), order)[i],
            ),
    ensures
        final(out)@ == old(out)@ + arg_lines(f, order, label@, class, index_count()),
{
    let ghost g = f.g();
    let ghost start = out@;
    proof {
        f.lemma_wf();
    }
    let st = f.side_tables();
    let indices = match class {
        ArgClass::Integer => st.iter_arg_indices(),
        ArgClass::Float => st.iter_float_arg_indices(),
    };
    let mut k: usize = 0;
    let ghost mut done: nat = 0;
    assert(out@ =~= start + arg_lines(f, order, label@, class, 0));
    while k < indices.len()
        invariant
            f.wf(),
            g == f.g(),
            *st == f.tables(),
            st.wf(),
            names.number(g, printed(g, order)),
            printed(g, order).no_duplicates(),
            forall|i: int|
                0 <= i < printed(g, order).len() ==> g.has_value(#[trigger] printed(g, order)[i]),
            forall|i: u32| #[trigger] indices@.contains(i) <==> st.carriers(class, i).len() > 0,
            forall|a: int, b: int| 0 <= a < b < indices@.len() ==> indices@[a] < indices@[b],
            k <= indices.len(),
            k == 0 ==> done == 0,
            k > 0 ==> done == indices@[k - 1] + 1,
            done <= index_count(),
            out@ == start + arg_lines(f, order, label@, class, done),
        decreases indices.len() - k,
    {
        let index = indices[k];
        proof {
            assert forall|i: u32| done <= i < index implies (
            #[trigger] f.tables().carriers(class, i)).len() == 0 by {
                if st.carriers(class, i).len() > 0 {
                    assert(indices@.contains(i));
                    let j = indices@.index_of(i);
                    if j < k {
                        assert(indices@[j] <= indices@[k - 1]);
                    } else if j > k {
                        assert(indices@[k as int] < indices@[j]);
                    }
                }
            }
            lemma_arg_gap(f, order, label@, class, done, index as nat);
        }
        let vs = match class {
            ArgClass::Integer => st.arg_index_to_values(index),
            ArgClass::Float => st.float_arg_index_to_values(index),
        };
        let ns = numbers_in_order(names, vs, Ghost(g), Ghost(order));
        let ghost before = out@;
        if ns.len() > 0 {
            push_arg_line(out, label, index, &ns);
        }
        proof {
            assert(out@ =~= before + arg_line(f, order, label@, class, index as nat));
            done = (index + 1) as nat;
            assert(arg_lines(f, order, label@, class, done) == arg_lines(
                f,
                order,
                label@,
                class,
                index as nat,
            ) + arg_line(f, order, label@, class, index as nat));
            assert(out@ =~= start + arg_lines(f, order, label@, class, done));
        }
        k += 1;
    }
    proof {
        assert forall|i: u32| done <= i < index_count() implies (
        #[trigger] f.tables().carriers(class, i)).len() == 0 by {
            if st.carriers(class, i).len() > 0 {
                assert(indices@.contains(i));
                let j = indices@.index_of(i);
                assert(indices@[j] <= indices@[k - 1]);
            }
        }
        lemma_arg_gap(f, order, label@, class, done, index_count());
    }
}

// -- lines -----------------------------------------------------------------------------------

/// The varnode tag of a value.
pub open spec fn tag_text(f: &Function, v: ValueId) -> Seq<char> {
    match f.tables().vn_of(v) {
        Some(id) => match f.vn_at(id) {
            Some(vn) => "<"@ + vn_text(vn) + ">"@,
            None => "<?>"@,
        },
        None => Seq::empty(),
    }
}

/// An output: its name, kind and tag.
pub open spec fn output_text(f: &Function, order: Seq<NodeId>, v: ValueId) -> Seq<char> {
    value_name(f.g(), order, v) + ":"@ + value_kind_text(f.g().value_kind(v)) + tag_text(f, v)
}

/// The first `n` outputs of a node, with commas between them.
pub open spec fn outputs_text(f: &Function, order: Seq<NodeId>, node: NodeId, n: int) -> Seq<char>
    decreases n,
{
    if n <= 0 {
        Seq::empty()
    } else {
        outputs_text(f, order, node, n - 1) + (if n > 1 {
            ", "@
        } else {
            Seq::empty()
        }) + output_text(f, order, f.g().outs(node)[n - 1])
    }
}

/// The first `n` inputs of a node, with commas between them.
pub open spec fn inputs_text(f: &Function, order: Seq<NodeId>, node: NodeId, n: int) -> Seq<char>
    decreases n,
{
    if n <= 0 {
        Seq::empty()
    } else {
        inputs_text(f, order, node, n - 1) + (if n > 1 {
            ", "@
        } else {
            " "@
        }) + value_name(f.g(), order, f.g().ins(node)[n - 1])
    }
}

/// The contributing addresses of a node, where they are asked for.
pub open spec fn fingerprint_text(f: &Function, node: NodeId, fingerprints: bool) -> Seq<char> {
    if fingerprints && f.tables().fingerprint(node).len() > 0 {
        "  @{"@ + addrs_joined(f.tables().fingerprint(node)) + "}"@
    } else {
        Seq::empty()
    }
}

/// The line of a node.
pub open spec fn line_text(
    f: &Function,
    order: Seq<NodeId>,
    node: NodeId,
    fingerprints: bool,
) -> Seq<char> {
    let g = f.g();
    (if g.kind(node) is Region {
        "\n"@
    } else {
        Seq::empty()
    }) + outputs_text(f, order, node, g.outs(node).len() as int) + (if g.outs(node).len() > 0 {
        " = "@
    } else {
        Seq::empty()
    }) + op_text(g.kind(node)) + payload_text(f, node) + inputs_text(
        f,
        order,
        node,
        g.ins(node).len() as int,
    ) + fingerprint_text(f, node, fingerprints) + "\n"@
}

/// The lines of the first `n` nodes of `order`.
pub open spec fn lines_text(
    f: &Function,
    order: Seq<NodeId>,
    fingerprints: bool,
    n: int,
) -> Seq<char>
    decreases n,
{
    if n <= 0 {
        Seq::empty()
    } else {
        lines_text(f, order, fingerprints, n - 1) + line_text(
            f,
            order,
            order[n - 1],
            fingerprints,
        )
    }
}

/// The lines before the nodes.
pub open spec fn header_text(f: &Function) -> Seq<char> {
    "endian "@ + (if f.endian() is Little {
        "little"@
    } else {
        "big"@
    }) + "\n"@ + "tracked "@ + vn_list_text(f.vns()) + "\n"@ + "default_cc"@ + all_fields_text(
        cc_field_texts(f.cc_default()@),
        12,
    ) + "\n"@
}

/// The whole text, nodes printing in `order`.
pub open spec fn function_text(f: &Function, order: Seq<NodeId>, fingerprints: bool) -> Seq<char> {
    header_text(f) + arg_lines(f, order, "arg"@, ArgClass::Integer, index_count()) + arg_lines(
        f,
        order,
        "float_arg"@,
        ArgClass::Float,
        index_count(),
    ) + lines_text(f, order, fingerprints, order.len() as int)
}

fn push_output(
    out: &mut String,
    names: &Names,
    f: &Function,
    value: ValueId,
    Ghost(order): Ghost<Seq<NodeId>>,
)
    requires
        f.wf(),
        names.number(f.g(), printed(f.g(), order)),
        printed(f.g(), order).no_duplicates(),
        f.g().has_value(value),
    ensures
        final(out)@ == old(out)@ + output_text(f, order, value),
{
    let ghost start = out@;
    push_name(out, names, value, Ghost(f.g()), Ghost(order));
    out.append(":");
    out.append(value_kind_str(f.value_kind(value)));
    match f.side_tables().value_vn(value) {
        Some(id) => match f.initial_vn_opt(id) {
            Some(vn) => {
                out.append("<");
                let text = vn_str(&vn);
                out.append(text.as_str());
                out.append(">");
                assert(out@ =~= start + output_text(f, order, value));
            },
            None => {
                out.append("<?>");
                assert(out@ =~= start + output_text(f, order, value));
            },
        },
        None => {
            assert(out@ =~= start + output_text(f, order, value));
        },
    }
}

fn push_outputs(
    out: &mut String,
    names: &Names,
    f: &Function,
    node: NodeId,
    Ghost(order): Ghost<Seq<NodeId>>,
)
    requires
        f.wf(),
        names.number(f.g(), printed(f.g(), order)),
        printed(f.g(), order).no_duplicates(),
        f.g().has_node(node),
    ensures
        final(out)@ == old(out)@ + outputs_text(
            f,
            order,
            node,
            f.g().outs(node).len() as int,
        ),
{
    let ghost start = out@;
    let outputs = f.node_outputs(node);
    let mut i: usize = 0;
    assert(out@ =~= start + outputs_text(f, order, node, 0));
    while i < outputs.len()
        invariant
            f.wf(),
            names.number(f.g(), printed(f.g(), order)),
            printed(f.g(), order).no_duplicates(),
            outputs@ == f.g().outs(node),
            forall|k: int| 0 <= k < outputs@.len() ==> f.g().has_value(#[trigger] outputs@[k]),
            i <= outputs.len(),
            out@ == start + outputs_text(f, order, node, i as int),
        decreases outputs.len() - i,
    {
        if i > 0 {
            out.append(", ");
        }
        push_output(out, names, f, outputs[i], Ghost(order));
        i += 1;
        assert(out@ =~= start + outputs_text(f, order, node, i as int));
    }
}

fn push_inputs(
    out: &mut String,
    names: &Names,
    f: &Function,
    node: NodeId,
    Ghost(order): Ghost<Seq<NodeId>>,
)
    requires
        f.wf(),
        names.number(f.g(), printed(f.g(), order)),
        printed(f.g(), order).no_duplicates(),
        f.g().has_node(node),
    ensures
        final(out)@ == old(out)@ + inputs_text(f, order, node, f.g().ins(node).len() as int),
{
    let ghost start = out@;
    let inputs = f.node_inputs(node).iter();
    let mut i: usize = 0;
    assert(out@ =~= start + inputs_text(f, order, node, 0));
    while i < inputs.len()
        invariant
            f.wf(),
            names.number(f.g(), printed(f.g(), order)),
            printed(f.g(), order).no_duplicates(),
            inputs@ == f.g().ins(node),
            forall|k: int| 0 <= k < inputs@.len() ==> f.g().has_value(#[trigger] inputs@[k]),
            i <= inputs.len(),
            out@ == start + inputs_text(f, order, node, i as int),
        decreases inputs.len() - i,
    {
        if i == 0 {
            out.append(" ");
        } else {
            out.append(", ");
        }
        push_name(out, names, inputs[i], Ghost(f.g()), Ghost(order));
        i += 1;
        assert(out@ =~= start + inputs_text(f, order, node, i as int));
    }
}

/// Text is appended piece by piece.
proof fn lemma_append(start: Seq<char>, acc: Seq<char>, piece: Seq<char>)
    ensures
        start + acc + piece == start + (acc + piece),
        start + Seq::<char>::empty() == start,
        start + acc + Seq::<char>::empty() == start + acc,
{
    assert(start + acc + piece =~= start + (acc + piece));
    assert(start + Seq::<char>::empty() =~= start);
    assert(start + acc + Seq::<char>::empty() =~= start + acc);
}

#[verifier::spinoff_prover]
fn push_line(
    out: &mut String,
    names: &Names,
    f: &Function,
    node: NodeId,
    fingerprints: bool,
    default_cc: &Vec<(&'static str, String)>,
    Ghost(order): Ghost<Seq<NodeId>>,
)
    requires
        f.wf(),
        names.number(f.g(), printed(f.g(), order)),
        printed(f.g(), order).no_duplicates(),
        f.g().has_node(node),
        spells(default_cc@, cc_field_texts(f.cc_default()@)),
    ensures
        final(out)@ == old(out)@ + line_text(f, order, node, fingerprints),
{
    let ghost start = out@;
    let ghost g = f.g();
    let kind = f.node_kind(node);
    let is_region = matches!(*kind, NodeKind::Region);
    if is_region {
        out.append("\n");
    }
    let ghost mut acc: Seq<char> = if g.kind(node) is Region {
        "\n"@
    } else {
        Seq::empty()
    };
    assert(out@ =~= start + acc);
    push_outputs(out, names, f, node, Ghost(order));
    proof {
        let piece = outputs_text(f, order, node, g.outs(node).len() as int);
        lemma_append(start, acc, piece);
        acc = acc + piece;
    }
    if f.node_outputs(node).len() > 0 {
        out.append(" = ");
    }
    proof {
        let piece = (if g.outs(node).len() > 0 {
            " = "@
        } else {
            Seq::empty()
        });
        lemma_append(start, acc, piece);
        acc = acc + piece;
    }
    out.append(op_name(kind));
    proof {
        let piece = op_text(g.kind(node));
        lemma_append(start, acc, piece);
        acc = acc + piece;
    }
    render_payload(f, node, default_cc, out);
    proof {
        let piece = payload_text(f, node);
        lemma_append(start, acc, piece);
        acc = acc + piece;
    }
    push_inputs(out, names, f, node, Ghost(order));
    proof {
        let piece = inputs_text(f, order, node, g.ins(node).len() as int);
        lemma_append(start, acc, piece);
        acc = acc + piece;
    }
    push_fingerprint(out, f, node, fingerprints);
    proof {
        let piece = fingerprint_text(f, node, fingerprints);
        lemma_append(start, acc, piece);
        acc = acc + piece;
    }
    out.append("\n");
    proof {
        let piece = "\n"@;
        lemma_append(start, acc, piece);
        acc = acc + piece;
        assert(acc == line_text(f, order, node, fingerprints));
    }
}

fn push_fingerprint(out: &mut String, f: &Function, node: NodeId, fingerprints: bool)
    ensures
        final(out)@ == old(out)@ + fingerprint_text(f, node, fingerprints),
{
    let ghost start = out@;
    let addrs = f.side_tables().asm_fingerprint(node);
    if fingerprints && addrs.len() > 0 {
        out.append("  @{");
        push_addrs(out, addrs);
        out.append("}");
    }
    assert(out@ =~= start + fingerprint_text(f, node, fingerprints));
}

/// Renders a function, its nodes printing in `order`.
pub fn render(f: &Function, order: &[NodeId], fingerprints: bool) -> (r: String)
    requires
        f.wf(),
        order@.no_duplicates(),
        forall|i: int| 0 <= i < order@.len() ==> f.g().has_node(#[trigger] order@[i]),
    ensures
        r@ == function_text(f, order@, fingerprints),
{
    proof {
        f.lemma_wf();
        lemma_printed(f.g(), order@);
    }
    let names = number_values(f, order);
    let mut out = String::new();
    out.append("endian ");
    match f.endianness() {
        Endianness::Little => {
            out.append("little");
        },
        Endianness::Big => {
            out.append("big");
        },
    }
    out.append("\n");
    out.append("tracked ");
    let vns = vn_list(f.all_vns());
    out.append(vns.as_str());
    out.append("\n");
    let fields = cc_fields(f.default_cc());
    out.append("default_cc");
    let ghost before = out@;
    let ghost texts = cc_field_texts(f.cc_default()@);
    let mut i: usize = 0;
    assert(out@ =~= before + all_fields_text(texts, 0));
    while i < fields.len()
        invariant
            i <= fields.len(),
            spells(fields@, texts),
            out@ == before + all_fields_text(texts, i as int),
        decreases fields.len() - i,
    {
        let (name, text) = &fields[i];
        out.append(" ");
        out.append(name);
        out.append("=");
        out.append(text.as_str());
        i += 1;
        assert(out@ =~= before + all_fields_text(texts, i as int));
    }
    out.append("\n");
    assert(out@ =~= header_text(f));
    render_args(&mut out, &names, "arg", f, ArgClass::Integer, Ghost(order@));
    render_args(&mut out, &names, "float_arg", f, ArgClass::Float, Ghost(order@));
    let ghost head = out@;
    let mut k: usize = 0;
    assert(out@ =~= head + lines_text(f, order@, fingerprints, 0));
    while k < order.len()
        invariant
            f.wf(),
            forall|j: int| 0 <= j < order@.len() ==> f.g().has_node(#[trigger] order@[j]),
            names.number(f.g(), printed(f.g(), order@)),
            printed(f.g(), order@).no_duplicates(),
            spells(fields@, cc_field_texts(f.cc_default()@)),
            k <= order.len(),
            out@ == head + lines_text(f, order@, fingerprints, k as int),
        decreases order.len() - k,
    {
        push_line(&mut out, &names, f, order[k], fingerprints, &fields, Ghost(order@));
        k += 1;
        assert(out@ =~= head + lines_text(f, order@, fingerprints, k as int));
    }
    out
}

} // verus!
