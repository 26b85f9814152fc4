//! What a box says of its node.

use super::naming::Naming;
use super::style::{bare_name, bare_text, unsigned_name, unsigned_text};
use crate::const_value::const_number;
use crate::fmt::{bool_text, dec, hex, hex0x, push_bool, push_dec, push_hex, push_hex0x};
use crate::function::func::Function;
use crate::function::text::render::{const_str, const_text};
use crate::node::{FunctionArgSource, NodeId, NodeKind, ValueType};
use vstd::prelude::*;
use vstd::string::StringExecFns;

verus! {

/// Whose way of writing labels is used.
#[derive(Clone, Copy, PartialEq, Eq, Structural, Debug)]
pub enum Dialect {
    /// Integers are `i8` to `i512`, a truth value is `i1`.
    Function,
    /// Integers are `u8` to `u512`, a truth value is `bool`.
    Graph,
}

/// The type of the first data output.
pub open spec fn out_type_of(f: &Function, n: NodeId) -> Option<ValueType> {
    match f.first_typed_from(n, 0) {
        Some(v) => f.g().value_kind(v).typed(),
        None => None,
    }
}

/// The type of an input, where it is data.
pub open spec fn in_type_of(f: &Function, n: NodeId, i: int) -> Option<ValueType> {
    if 0 <= i < f.g().ins(n).len() {
        f.g().value_kind(f.g().ins(n)[i]).typed()
    } else {
        None
    }
}

pub open spec fn type_text(d: Dialect, ty: ValueType) -> Seq<char> {
    match d {
        Dialect::Function => ty.name(),
        Dialect::Graph => unsigned_text(ty),
    }
}

/// A type, or a question mark.
pub open spec fn type_or_mark(d: Dialect, ty: Option<ValueType>) -> Seq<char> {
    match ty {
        Some(t) => type_text(d, t),
        None => "?"@,
    }
}

/// A type after a separator, or nothing.
pub open spec fn type_suffix(d: Dialect, sep: Seq<char>, ty: Option<ValueType>) -> Seq<char> {
    match ty {
        Some(t) => sep + type_text(d, t),
        None => ""@,
    }
}

/// A width change: from the type of input 0 to that of the output.
pub open spec fn change_text(d: Dialect, prefix: Seq<char>, f: &Function, n: NodeId) -> Seq<char> {
    prefix + "\n"@ + type_or_mark(d, in_type_of(f, n, 0)) + " → "@ + type_or_mark(
        d,
        out_type_of(f, n),
    )
}

/// A comparison: only the type of its inputs varies.
pub open spec fn compare_text(d: Dialect, prefix: Seq<char>, f: &Function, n: NodeId) -> Seq<char> {
    prefix + "\n"@ + type_or_mark(d, in_type_of(f, n, 0)) + " → "@ + type_text(d, ValueType::I1)
}

/// An offset with its sign.
pub open spec fn signed_text(o: int) -> Seq<char> {
    if o < 0 {
        " - "@ + dec((-o) as nat)
    } else {
        " + "@ + dec(o as nat)
    }
}

/// Offsets from the stack pointer with commas between them.
pub open spec fn offsets_joined(offsets: Seq<i64>, n: int) -> Seq<char>
    decreases n,
{
    if n <= 0 {
        Seq::empty()
    } else if n == 1 {
        "sp"@ + signed_text(offsets[0] as int)
    } else {
        offsets_joined(offsets, n - 1) + ", sp"@ + signed_text(offsets[n - 1] as int)
    }
}

/// The place on the stack that a load or store accesses.
pub open spec fn place_text(d: Dialect, f: &Function, n: NodeId) -> Seq<char> {
    match f.sp_offset(n) {
        None => ""@,
        Some((_, k)) => match d {
            Dialect::Function => "\nbase sp"@ + signed_text(k as int),
            Dialect::Graph => if k < 0 {
                "[sp-"@ + dec((-k) as nat) + "]"@
            } else {
                "[sp+"@ + dec(k as nat) + "]"@
            },
        },
    }
}

/// A number with a fraction, or its bits where nothing tells how it is written.
pub open spec fn float_text_of(names: &Naming, single: bool, bits: u64) -> Seq<char> {
    let key: u64 = if single {
        bits & 0xffff_ffff
    } else {
        bits
    };
    match names.float(single, key) {
        Some(text) => text,
        None => hex0x(key as nat),
    }
}

pub open spec fn float_const_text(
    d: Dialect,
    names: &Naming,
    bits: u64,
    ty: Option<ValueType>,
) -> Seq<char> {
    match ty {
        Some(t) => if t == ValueType::F32 {
            "const "@ + float_text_of(names, true, bits) + ":f32"@
        } else if t == ValueType::F64 || (d is Graph && t != ValueType::F80) {
            "const "@ + float_text_of(names, false, bits) + ":f64"@
        } else {
            "const "@ + hex0x(bits as nat) + ":"@ + type_text(d, t)
        },
        None => match d {
            Dialect::Function => "const "@ + hex0x(bits as nat),
            Dialect::Graph => "const "@ + float_text_of(names, false, bits) + ":f64"@,
        },
    }
}

pub open spec fn int_const_text(d: Dialect, f: &Function, n: NodeId, id: u32) -> Seq<char> {
    let ty = out_type_of(f, n);
    match f.const_of(n) {
        None => "const <dangling const ConstId("@ + dec(id as nat) + ")>"@,
        Some(c) => match ty {
            Some(t) => if t.wide() {
                "const "@ + const_text(c) + ":i"@ + dec(t.width())
            } else {
                "const "@ + hex0x(
                    if const_number(c) <= u128::MAX {
                        const_number(c)
                    } else {
                        0
                    },
                ) + ":"@ + type_text(d, t)
            },
            None => match d {
                Dialect::Function => "const 0x0"@,
                Dialect::Graph => "const "@ + const_text(c),
            },
        },
    }
}

pub open spec fn source_text(names: &Naming, source: FunctionArgSource, index: u32) -> Seq<char> {
    match source {
        FunctionArgSource::Register(reg) => "arg["@ + dec(index as nat) + "] ← "@ + names.vn_name(
            reg,
        ),
        FunctionArgSource::Stack { space, offset } => "arg["@ + dec(index as nat) + "] ← "@
            + names.space_word(space) + "[sp"@ + signed_text(offset as int) + "]"@,
    }
}

/// The cases of a switch, one on each line.
pub open spec fn cases_text(cases: Seq<u64>, n: int) -> Seq<char>
    decreases n,
{
    if n <= 0 {
        "Switch"@
    } else {
        cases_text(cases, n - 1) + "\n0x"@ + hex(cases[n - 1] as nat)
    }
}

pub open spec fn phi_text(f: &Function, names: &Naming, n: NodeId) -> Seq<char> {
    if f.g().outs(n).len() > 0 {
        match f.vn_for(f.g().outs(n)[0]) {
            Some(vn) => "φ "@ + names.vn_name(vn),
            None => "φ Val"@,
        }
    } else {
        "φ Val"@
    }
}

pub open spec fn user_op_text(d: Dialect, f: &Function, n: NodeId, user_op_id: u64) -> Seq<char> {
    let head = match f.user_op_name(n) {
        Some(name) => "CallOther "@ + name + " #"@,
        None => "CallOther #"@,
    };
    head + dec(user_op_id as nat) + type_suffix(d, "\n→ "@, out_type_of(f, n))
}

/// The label of a node.
pub open spec fn label_text(d: Dialect, f: &Function, names: &Naming, n: NodeId) -> Seq<char> {
    let kind = f.g().kind(n);
    let bare = bare_text(kind);
    let out = out_type_of(f, n);
    match kind {
        NodeKind::InitialVar(id) => match f.vn_at(id) {
            Some(vn) => "init\n"@ + names.vn_name(vn),
            None => "init\n#"@ + dec(id.0 as nat),
        },
        NodeKind::FunctionArg { source, index } => source_text(names, source, index),
        NodeKind::MemPhi => "φ Mem"@,
        NodeKind::Phi => phi_text(f, names, n),
        NodeKind::IntConst(id) => int_const_text(d, f, n, id.0),
        NodeKind::FloatConst(bits) => float_const_text(d, names, bits, out),
        NodeKind::BoolConst(b) => "const "@ + bool_text(b),
        NodeKind::Load(space) => "Load"@ + type_suffix(d, " "@, out) + "\n← "@ + names.space_word(
            space,
        ) + place_text(d, f, n),
        NodeKind::Store(space) => "Store"@ + type_suffix(d, " "@, in_type_of(f, n, 2)) + "\n→ "@
            + names.space_word(space) + place_text(d, f, n),
        NodeKind::StackStore { space, offset } => "StackStore"@ + type_suffix(
            d,
            " "@,
            in_type_of(f, n, 2),
        ) + "\n→ "@ + names.space_word(space) + "[sp"@ + signed_text(offset as int) + "]"@,
        NodeKind::StackStorePhi { space } => "φ StackStore"@ + type_suffix(
            d,
            " "@,
            in_type_of(f, n, 2),
        ) + "\n→ "@ + names.space_word(space) + "["@ + (if f.tables().phi_offsets_of(n).len()
            == 0 {
            "?"@
        } else {
            offsets_joined(f.tables().phi_offsets_of(n), f.tables().phi_offsets_of(n).len() as int)
        }) + "]"@,
        NodeKind::CastToBool => "Cast → bool\nfrom "@ + type_or_mark(d, in_type_of(f, n, 0)),
        NodeKind::CastToInt => "Cast → "@ + type_or_mark(d, out) + "\nfrom "@ + type_or_mark(
            d,
            in_type_of(f, n, 0),
        ),
        NodeKind::Truncate
        | NodeKind::Popcount
        | NodeKind::Lzcount
        | NodeKind::Extend(_)
        | NodeKind::IntUnaryOp(_)
        | NodeKind::FloatUnaryOp(_)
        | NodeKind::IntToFloat
        | NodeKind::FloatToInt
        | NodeKind::FloatToFloat
        | NodeKind::CastToFloat => change_text(d, bare, f, n),
        NodeKind::IntBitsToFloat | NodeKind::FloatBitsToInt => change_text(d, "bitcast"@, f, n),
        NodeKind::IntBinaryOp(_)
        | NodeKind::FloatBinaryOp(_)
        | NodeKind::CPoolRef
        | NodeKind::New => bare + type_suffix(d, ":"@, out),
        NodeKind::BoolBinaryOp(_) | NodeKind::BoolUnaryOp(_) => bare + ":bool"@,
        NodeKind::IntCmpOp(_) | NodeKind::FloatCmpOp(_) => compare_text(d, bare, f, n),
        NodeKind::CallOther { user_op_id } => user_op_text(d, f, n, user_op_id),
        NodeKind::SegmentOp { op_id } => "SegmentOp #"@ + dec(op_id as nat) + type_suffix(
            d,
            ":"@,
            out,
        ),
        NodeKind::Switch(_) => cases_text(f.cases(n), f.cases(n).len() as int),
        _ => bare,
    }
}

// -- writing labels ----------------------------------------------------------------

fn name_of_type(d: Dialect, ty: ValueType) -> (r: &'static str)
    ensures
        r@ == type_text(d, ty),
{
    match d {
        Dialect::Function => ty.as_str(),
        Dialect::Graph => unsigned_name(ty),
    }
}

fn push_type_or_mark(s: &mut String, d: Dialect, ty: Option<ValueType>)
    ensures
        final(s)@ == old(s)@ + type_or_mark(d, ty),
{
    match ty {
        Some(t) => s.append(name_of_type(d, t)),
        None => s.append("?"),
    }
}

fn push_type_suffix(s: &mut String, d: Dialect, sep: &str, ty: Option<ValueType>)
    ensures
        final(s)@ == old(s)@ + type_suffix(d, sep@, ty),
{
    let ghost start = s@;
    match ty {
        Some(t) => {
            s.append(sep);
            s.append(name_of_type(d, t));
        },
        None => {
            s.append("");
        },
    }
    assert(s@ =~= start + type_suffix(d, sep@, ty));
}

/// Formats an offset so that its sign is always shown.
pub fn signed_offset(o: i64) -> (r: String)
    ensures
        r@ == signed_text(o as int),
{
    let mut s = String::new();
    push_signed_offset(&mut s, o as i128);
    assert(s@ =~= signed_text(o as int));
    s
}

fn magnitude(k: i128) -> (r: u128)
    requires
        k < 0,
    ensures
        r == -k,
{
    (-(k + 1)) as u128 + 1
}

fn push_signed_offset(s: &mut String, o: i128)
    ensures
        final(s)@ == old(s)@ + signed_text(o as int),
{
    let ghost start = s@;
    if o < 0 {
        s.append(" - ");
        push_dec(s, magnitude(o));
    } else {
        s.append(" + ");
        push_dec(s, o as u128);
    }
    assert(s@ =~= start + signed_text(o as int));
}

fn push_offsets(s: &mut String, offsets: &[i64])
    requires
        offsets@.len() > 0,
    ensures
        final(s)@ == old(s)@ + offsets_joined(offsets@, offsets@.len() as int),
{
    let ghost start = s@;
    s.append("sp");
    push_signed_offset(s, offsets[0] as i128);
    let mut i: usize = 1;
    assert(s@ =~= start + offsets_joined(offsets@, 1));
    while i < offsets.len()
        invariant
            1 <= i <= offsets.len(),
            s@ == start + offsets_joined(offsets@, i as int),
        decreases offsets.len() - i,
    {
        s.append(", sp");
        push_signed_offset(s, offsets[i] as i128);
        i += 1;
        assert(s@ =~= start + offsets_joined(offsets@, i as int));
    }
}

fn float_label(d: Dialect, names: &Naming, bits: u64, ty: Option<ValueType>) -> (r: String)
    ensures
        r@ == float_const_text(d, names, bits, ty),
{
    let mut s = "const ".to_owned();
    match ty {
        Some(t) => {
            if t == ValueType::F32 {
                push_float(&mut s, names, true, bits);
                s.append(":f32");
            } else if t == ValueType::F64 || (matches!(d, Dialect::Graph) && t != ValueType::F80) {
                push_float(&mut s, names, false, bits);
                s.append(":f64");
            } else {
                push_hex0x(&mut s, bits as u128);
                s.append(":");
                s.append(name_of_type(d, t));
            }
        },
        None => match d {
            Dialect::Function => {
                push_hex0x(&mut s, bits as u128);
            },
            Dialect::Graph => {
                push_float(&mut s, names, false, bits);
                s.append(":f64");
            },
        },
    }
    s
}

fn push_float(s: &mut String, names: &Naming, single: bool, bits: u64)
    ensures
        final(s)@ == old(s)@ + float_text_of(names, single, bits),
{
    let key: u64 = if single {
        bits & 0xffff_ffff
    } else {
        bits
    };
    match names.float_text(single, key) {
        Some(text) => s.append(text.as_str()),
        None => push_hex0x(s, key as u128),
    }
}

/// The type of the first data output.
fn out_type(f: &Function, node: NodeId) -> (r: Option<ValueType>)
    requires
        f.wf(),
        f.g().has_node(node),
    ensures
        r == out_type_of(f, node),
{
    match f.first_value_output_of(node) {
        Some(v) => f.value_type_opt(v),
        None => None,
    }
}

/// The type of an input, where it is data.
fn input_type(f: &Function, node: NodeId, idx: usize) -> (r: Option<ValueType>)
    requires
        f.wf(),
        f.g().has_node(node),
    ensures
        r == in_type_of(f, node, idx as int),
{
    match f.nth_input(node, idx) {
        Some(v) => f.value_type_opt(v),
        None => None,
    }
}

fn width_change_label(d: Dialect, f: &Function, node: NodeId, prefix: &str) -> (r: String)
    requires
        f.wf(),
        f.g().has_node(node),
    ensures
        r@ == change_text(d, prefix@, f, node),
{
    let mut s = prefix.to_owned();
    s.append("\n");
    push_type_or_mark(&mut s, d, input_type(f, node, 0));
    s.append(" → ");
    push_type_or_mark(&mut s, d, out_type(f, node));
    s
}

fn comparison_label(d: Dialect, f: &Function, node: NodeId, prefix: &str) -> (r: String)
    requires
        f.wf(),
        f.g().has_node(node),
    ensures
        r@ == compare_text(d, prefix@, f, node),
{
    let mut s = prefix.to_owned();
    s.append("\n");
    push_type_or_mark(&mut s, d, input_type(f, node, 0));
    s.append(" → ");
    s.append(name_of_type(d, ValueType::I1));
    s
}

fn push_place(s: &mut String, d: Dialect, f: &Function, node: NodeId)
    requires
        f.wf(),
        f.g().has_node(node),
    ensures
        final(s)@ == old(s)@ + place_text(d, f, node),
{
    let ghost start = s@;
    match f.stack_offset(node) {
        None => {
            s.append("");
        },
        Some((_, k)) => match d {
            Dialect::Function => {
                s.append("\nbase sp");
                push_signed_offset(s, k);
            },
            Dialect::Graph => {
                if k < 0 {
                    s.append("[sp-");
                    push_dec(s, magnitude(k));
                    s.append("]");
                } else {
                    s.append("[sp+");
                    push_dec(s, k as u128);
                    s.append("]");
                }
            },
        },
    }
    assert(s@ =~= start + place_text(d, f, node));
}

fn int_const_label(d: Dialect, f: &Function, node: NodeId, id: crate::node::ConstId) -> (r: String)
    requires
        f.wf(),
        f.g().has_node(node),
        f.g().kind(node) == NodeKind::IntConst(id),
    ensures
        r@ == int_const_text(d, f, node, id.0),
{
    match f.const_value_opt(id) {
        None => {
            let mut s = "const <dangling const ConstId(".to_owned();
            push_dec(&mut s, id.0 as u128);
            s.append(")>");
            s
        },
        Some(c) => match out_type(f, node) {
            Some(t) => {
                let mut s = "const ".to_owned();
                if t.is_wide_int() {
                    let value = const_str(c);
                    s.append(value.as_str());
                    s.append(":i");
                    push_dec(&mut s, t.bit_width() as u128);
                } else {
                    let v = match c.fits_u128() {
                        Some(v) => v,
                        None => 0,
                    };
                    push_hex0x(&mut s, v);
                    s.append(":");
                    s.append(name_of_type(d, t));
                }
                s
            },
            None => match d {
                Dialect::Function => "const 0x0".to_owned(),
                Dialect::Graph => {
                    let mut s = "const ".to_owned();
                    let value = const_str(c);
                    s.append(value.as_str());
                    s
                },
            },
        },
    }
}

fn source_label(names: &Naming, source: &FunctionArgSource, index: u32) -> (r: String)
    ensures
        r@ == source_text(names, *source, index),
{
    let mut s = "arg[".to_owned();
    push_dec(&mut s, index as u128);
    s.append("] ← ");
    match *source {
        FunctionArgSource::Register(reg) => {
            let name = names.vn_to_name(&reg);
            s.append(name.as_str());
        },
        FunctionArgSource::Stack { space, offset } => {
            s.append(names.pretty_vnspace(space));
            s.append("[sp");
            push_signed_offset(&mut s, offset as i128);
            s.append("]");
        },
    }
    s
}

fn switch_label(f: &Function, node: NodeId) -> (r: String)
    requires
        f.wf(),
        f.g().has_node(node),
    ensures
        r@ == cases_text(f.cases(node), f.cases(node).len() as int),
{
    let cases = f.switch_targets(node);
    let mut s = "Switch".to_owned();
    let mut i: usize = 0;
    while i < cases.len()
        invariant
            i <= cases.len(),
            s@ == cases_text(cases@, i as int),
        decreases cases.len() - i,
    {
        s.append("\n0x");
        push_hex(&mut s, cases[i] as u128);
        i += 1;
    }
    s
}

fn phi_label(f: &Function, names: &Naming, node: NodeId) -> (r: String)
    requires
        f.wf(),
        f.g().has_node(node),
    ensures
        r@ == phi_text(f, names, node),
{
    let outs = f.node_outputs(node);
    if outs.len() > 0 {
        match f.get_vn_for_value(outs[0]) {
            Some(vn) => {
                let mut s = "φ ".to_owned();
                let name = names.vn_to_name(&vn);
                s.append(name.as_str());
                s
            },
            None => "φ Val".to_owned(),
        }
    } else {
        "φ Val".to_owned()
    }
}

fn user_op_label(d: Dialect, f: &Function, node: NodeId, user_op_id: u64) -> (r: String)
    requires
        f.wf(),
        f.g().has_node(node),
    ensures
        r@ == user_op_text(d, f, node, user_op_id),
{
    let mut s = match f.call_other_name(node) {
        Some(name) => {
            let mut head = "CallOther ".to_owned();
            head.append(name);
            head.append(" #");
            head
        },
        None => "CallOther #".to_owned(),
    };
    push_dec(&mut s, user_op_id as u128);
    push_type_suffix(&mut s, d, "\n→ ", out_type(f, node));
    s
}

fn access_label(d: Dialect, f: &Function, names: &Naming, node: NodeId) -> (r: String)
    requires
        f.wf(),
        f.g().has_node(node),
        f.g().kind(node) is Load || f.g().kind(node) is Store || f.g().kind(node) is StackStore
            || f.g().kind(node) is StackStorePhi,
    ensures
        r@ == label_text(d, f, names, node),
{
    match *f.node_kind(node) {
        NodeKind::Load(space) => {
            let mut s = "Load".to_owned();
            push_type_suffix(&mut s, d, " ", out_type(f, node));
            s.append("\n← ");
            s.append(names.pretty_vnspace(space));
            push_place(&mut s, d, f, node);
            s
        },
        NodeKind::Store(space) => {
            let mut s = "Store".to_owned();
            push_type_suffix(&mut s, d, " ", input_type(f, node, 2));
            s.append("\n→ ");
            s.append(names.pretty_vnspace(space));
            push_place(&mut s, d, f, node);
            s
        },
        NodeKind::StackStore { space, offset } => {
            let mut s = "StackStore".to_owned();
            push_type_suffix(&mut s, d, " ", input_type(f, node, 2));
            s.append("\n→ ");
            s.append(names.pretty_vnspace(space));
            s.append("[sp");
            push_signed_offset(&mut s, offset as i128);
            s.append("]");
            s
        },
        NodeKind::StackStorePhi { space } => {
            let mut s = "φ StackStore".to_owned();
            push_type_suffix(&mut s, d, " ", input_type(f, node, 2));
            s.append("\n→ ");
            s.append(names.pretty_vnspace(space));
            s.append("[");
            let offsets = f.side_tables().stack_phi_offsets(node);
            if offsets.len() == 0 {
                s.append("?");
            } else {
                push_offsets(&mut s, offsets);
            }
            s.append("]");
            s
        },
        _ => String::new(),
    }
}

/// The label of a node.
pub fn pretty_label(d: Dialect, f: &Function, names: &Naming, node: NodeId) -> (r: String)
    requires
        f.wf(),
        f.g().has_node(node),
    ensures
        r@ == label_text(d, f, names, node),
{
    let kind = *f.node_kind(node);
    match kind {
        NodeKind::InitialVar(id) => match f.initial_vn_opt(id) {
            Some(vn) => {
                let mut s = "init\n".to_owned();
                let name = names.vn_to_name(&vn);
                s.append(name.as_str());
                s
            },
            None => {
                let mut s = "init\n#".to_owned();
                push_dec(&mut s, id.0 as u128);
                s
            },
        },
        NodeKind::FunctionArg { source, index } => source_label(names, &source, index),
        NodeKind::MemPhi => "φ Mem".to_owned(),
        NodeKind::Phi => phi_label(f, names, node),
        NodeKind::IntConst(id) => int_const_label(d, f, node, id),
        NodeKind::FloatConst(bits) => float_label(d, names, bits, out_type(f, node)),
        NodeKind::BoolConst(b) => {
            let mut s = "const ".to_owned();
            push_bool(&mut s, b);
            s
        },
        NodeKind::Load(_)
        | NodeKind::Store(_)
        | NodeKind::StackStore { .. }
        | NodeKind::StackStorePhi { .. } => access_label(d, f, names, node),
        NodeKind::CastToBool => {
            let mut s = "Cast → bool\nfrom ".to_owned();
            push_type_or_mark(&mut s, d, input_type(f, node, 0));
            s
        },
        NodeKind::CastToInt => {
            let mut s = "Cast → ".to_owned();
            push_type_or_mark(&mut s, d, out_type(f, node));
            s.append("\nfrom ");
            push_type_or_mark(&mut s, d, input_type(f, node, 0));
            s
        },
        NodeKind::Truncate
        | NodeKind::Popcount
        | NodeKind::Lzcount
        | NodeKind::Extend(_)
        | NodeKind::IntUnaryOp(_)
        | NodeKind::FloatUnaryOp(_)
        | NodeKind::IntToFloat
        | NodeKind::FloatToInt
        | NodeKind::FloatToFloat
        | NodeKind::CastToFloat => width_change_label(d, f, node, bare_name(&kind)),
        NodeKind::IntBitsToFloat | NodeKind::FloatBitsToInt => width_change_label(
            d,
            f,
            node,
            "bitcast",
        ),
        NodeKind::IntBinaryOp(_)
        | NodeKind::FloatBinaryOp(_)
        | NodeKind::CPoolRef
        | NodeKind::New => {
            let mut s = bare_name(&kind).to_owned();
            push_type_suffix(&mut s, d, ":", out_type(f, node));
            s
        },
        NodeKind::BoolBinaryOp(_) | NodeKind::BoolUnaryOp(_) => {
            let mut s = bare_name(&kind).to_owned();
            s.append(":bool");
            s
        },
        NodeKind::IntCmpOp(_) | NodeKind::FloatCmpOp(_) => comparison_label(d, f, node, bare_name(&kind)),
        NodeKind::CallOther { user_op_id } => user_op_label(d, f, node, user_op_id),
        NodeKind::SegmentOp { op_id } => {
            let mut s = "SegmentOp #".to_owned();
            push_dec(&mut s, op_id as u128);
            push_type_suffix(&mut s, d, ":", out_type(f, node));
            s
        },
        NodeKind::Switch(_) => switch_label(f, node),
        _ => bare_name(&kind).to_owned(),
    }
}

} // verus!
