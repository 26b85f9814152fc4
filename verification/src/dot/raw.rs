//! A drawing of a function exactly as it is stored, for debugging: one box for
//! each node that can be reached, one edge for each input, and what the side
//! tables hold of a node inside its box.

use super::args::{arg_tags, build_arg_reverse_map, holds_tags, ArgTag};
use super::emitter::{
    attr_models, dot_text, edge_stmt, node_stmt, push_attr, DotEmitter, DotStyle, StmtModel,
};
use super::function_dot::no_attrs;
use super::naming::{shortcut_str, shortcut_text};
use super::neighborhood::{
    ascending_nodes, build_consumers, consumers_in, listed, neighborhood,
    neighborhood_nodes, Limits,
};
use super::style::{bare_name, bare_text};
use crate::const_value::{ConstModel, ConstValue};
use crate::entity_set::NodeIdSet;
use crate::fmt::{bool_text, dec, hex0x, push_bool, push_dec, push_hex0x, push_signed, signed_dec};
use crate::function::func::Function;
use crate::graph::walk::lemma_feeds_node;
use crate::id_map::IdMap;
use crate::graph::walk::walk_order;
use crate::node::{FunctionArgSource, NodeId, NodeKind, ValueKind, ValueType};
use crate::target::Vn;
use vstd::prelude::*;
use vstd::string::StringExecFns;

verus! {

/// A varnode by shortcut, offset and size, without anything between the first
/// two.
pub open spec fn raw_vn_text(vn: Vn) -> Seq<char> {
    shortcut_text(vn.addr_space) + hex0x(vn.addr_off as nat) + ":"@ + dec(vn.size as nat)
}

/// A varnode in its short form.
pub fn fmt_vn(vn: &Vn) -> (r: String)
    ensures
        r@ == raw_vn_text(*vn),
{
    let mut s = shortcut_str(vn.addr_space);
    push_hex0x(&mut s, vn.addr_off as u128);
    s.append(":");
    push_dec(&mut s, vn.size as u128);
    s
}

/// A type by the name of its variant.
pub open spec fn variant_text(ty: ValueType) -> Seq<char> {
    match ty {
        ValueType::I1 => "I1"@,
        ValueType::I8 => "I8"@,
        ValueType::I16 => "I16"@,
        ValueType::I32 => "I32"@,
        ValueType::I64 => "I64"@,
        ValueType::I80 => "I80"@,
        ValueType::I128 => "I128"@,
        ValueType::I256 => "I256"@,
        ValueType::I512 => "I512"@,
        ValueType::F16 => "F16"@,
        ValueType::F32 => "F32"@,
        ValueType::F64 => "F64"@,
        ValueType::F80 => "F80"@,
        ValueType::F128 => "F128"@,
    }
}

fn variant_name(ty: ValueType) -> (r: &'static str)
    ensures
        r@ == variant_text(ty),
{
    match ty {
        ValueType::I1 => "I1",
        ValueType::I8 => "I8",
        ValueType::I16 => "I16",
        ValueType::I32 => "I32",
        ValueType::I64 => "I64",
        ValueType::I80 => "I80",
        ValueType::I128 => "I128",
        ValueType::I256 => "I256",
        ValueType::I512 => "I512",
        ValueType::F16 => "F16",
        ValueType::F32 => "F32",
        ValueType::F64 => "F64",
        ValueType::F80 => "F80",
        ValueType::F128 => "F128",
    }
}

/// A value kind as it is declared.
pub open spec fn value_kind_debug(kind: ValueKind) -> Seq<char> {
    match kind {
        ValueKind::Control => "Control"@,
        ValueKind::PhiToken => "PhiToken"@,
        ValueKind::Memory => "Memory"@,
        ValueKind::MemoryPart(class) => "MemoryPart("@ + class.name() + ")"@,
        ValueKind::Typed(ty) => "Typed("@ + variant_text(ty) + ")"@,
    }
}

fn push_value_kind(s: &mut String, kind: ValueKind)
    ensures
        final(s)@ == old(s)@ + value_kind_debug(kind),
{
    let ghost start = s@;
    match kind {
        ValueKind::Control => s.append("Control"),
        ValueKind::PhiToken => s.append("PhiToken"),
        ValueKind::Memory => s.append("Memory"),
        ValueKind::MemoryPart(class) => {
            s.append("MemoryPart(");
            s.append(class.as_str());
            s.append(")");
        },
        ValueKind::Typed(ty) => {
            s.append("Typed(");
            s.append(variant_name(ty));
            s.append(")");
        },
    }
    assert(s@ =~= start + value_kind_debug(kind));
}

/// A kind as it is declared, short where it carries a number of a table.
pub open spec fn kind_debug(f: &Function, kind: NodeKind) -> Seq<char> {
    let bare = bare_text(kind);
    match kind {
        NodeKind::InitialVar(id) => match f.vn_at(id) {
            Some(vn) => "InitialVar(#"@ + dec(id.0 as nat) + " "@ + raw_vn_text(vn) + ")"@,
            None => "InitialVar(#"@ + dec(id.0 as nat) + " ?)"@,
        },
        NodeKind::FunctionArg { source, index } => match source {
            FunctionArgSource::Register(vn) => "FunctionArg(#"@ + dec(index as nat) + " "@
                + raw_vn_text(vn) + ")"@,
            FunctionArgSource::Stack { space, offset } => "FunctionArg(#"@ + dec(index as nat)
                + " "@ + shortcut_text(space) + "["@ + signed_dec(offset as int) + "])"@,
        },
        NodeKind::Switch(id) => "Switch(#"@ + dec(id.0 as nat) + ")"@,
        NodeKind::Call { cc } => match cc {
            Some(id) => "Call(#"@ + dec(id.0 as nat) + ")"@,
            None => "Call"@,
        },
        NodeKind::CallOther { user_op_id } => "CallOther { user_op_id: "@ + dec(
            user_op_id as nat,
        ) + " }"@,
        NodeKind::Load(space) => "Load("@ + shortcut_text(space) + ")"@,
        NodeKind::Store(space) => "Store("@ + shortcut_text(space) + ")"@,
        NodeKind::StackStore { space, offset } => "StackStore("@ + shortcut_text(space) + "["@
            + signed_dec(offset as int) + "])"@,
        NodeKind::StackStorePhi { space } => "StackStorePhi("@ + shortcut_text(space) + ")"@,
        NodeKind::IntConst(id) => "IntConst(#"@ + dec(id.0 as nat) + ")"@,
        NodeKind::FloatConst(bits) => "FloatConst("@ + dec(bits as nat) + ")"@,
        NodeKind::BoolConst(b) => "BoolConst("@ + bool_text(b) + ")"@,
        NodeKind::IntUnaryOp(_) => "IntUnaryOp("@ + bare + ")"@,
        NodeKind::IntBinaryOp(_) => "IntBinaryOp("@ + bare + ")"@,
        NodeKind::IntCmpOp(_) => "IntCmpOp("@ + bare + ")"@,
        NodeKind::Extend(_) => "Extend("@ + bare + ")"@,
        NodeKind::BoolBinaryOp(_) => "BoolBinaryOp("@ + bare + ")"@,
        NodeKind::BoolUnaryOp(_) => "BoolUnaryOp("@ + bare + ")"@,
        NodeKind::FloatBinaryOp(_) => "FloatBinaryOp("@ + bare + ")"@,
        NodeKind::FloatUnaryOp(_) => "FloatUnaryOp("@ + bare + ")"@,
        NodeKind::FloatCmpOp(_) => "FloatCmpOp("@ + bare + ")"@,
        NodeKind::SegmentOp { op_id } => "SegmentOp { op_id: "@ + dec(op_id as nat) + " }"@,
        _ => bare,
    }
}

fn numbered(prefix: &str, n: u128, suffix: &str) -> (r: String)
    ensures
        r@ == prefix@ + dec(n as nat) + suffix@,
{
    let mut s = prefix.to_owned();
    push_dec(&mut s, n);
    s.append(suffix);
    s
}

fn wrapped(prefix: &str, inner: &str, suffix: &str) -> (r: String)
    ensures
        r@ == prefix@ + inner@ + suffix@,
{
    let mut s = prefix.to_owned();
    s.append(inner);
    s.append(suffix);
    s
}

fn op_wrapper(kind: &NodeKind) -> (r: Option<&'static str>)
    ensures
        match r {
            Some(prefix) => forall|f: &Function| #[trigger]
                kind_debug(f, *kind) == prefix@ + bare_text(*kind) + ")"@,
            None => !(kind is IntUnaryOp || kind is IntBinaryOp || kind is IntCmpOp
                || kind is Extend || kind is BoolBinaryOp || kind is BoolUnaryOp
                || kind is FloatBinaryOp || kind is FloatUnaryOp || kind is FloatCmpOp),
        },
{
    match *kind {
        NodeKind::IntUnaryOp(_) => Some("IntUnaryOp("),
        NodeKind::IntBinaryOp(_) => Some("IntBinaryOp("),
        NodeKind::IntCmpOp(_) => Some("IntCmpOp("),
        NodeKind::Extend(_) => Some("Extend("),
        NodeKind::BoolBinaryOp(_) => Some("BoolBinaryOp("),
        NodeKind::BoolUnaryOp(_) => Some("BoolUnaryOp("),
        NodeKind::FloatBinaryOp(_) => Some("FloatBinaryOp("),
        NodeKind::FloatUnaryOp(_) => Some("FloatUnaryOp("),
        NodeKind::FloatCmpOp(_) => Some("FloatCmpOp("),
        _ => None,
    }
}

fn kind_str(f: &Function, kind: &NodeKind) -> (r: String)
    requires
        f.wf(),
    ensures
        r@ == kind_debug(f, *kind),
{
    if let Some(prefix) = op_wrapper(kind) {
        return wrapped(prefix, bare_name(kind), ")");
    }
    match *kind {
        NodeKind::InitialVar(id) => match f.initial_vn_opt(id) {
            Some(vn) => {
                let mut s = numbered("InitialVar(#", id.0 as u128, " ");
                s.append(fmt_vn(&vn).as_str());
                s.append(")");
                s
            },
            None => numbered("InitialVar(#", id.0 as u128, " ?)"),
        },
        NodeKind::FunctionArg { source, index } => {
            let mut s = numbered("FunctionArg(#", index as u128, " ");
            match source {
                FunctionArgSource::Register(vn) => {
                    s.append(fmt_vn(&vn).as_str());
                    s.append(")");
                },
                FunctionArgSource::Stack { space, offset } => {
                    s.append(shortcut_str(space).as_str());
                    s.append("[");
                    push_signed(&mut s, offset);
                    s.append("])");
                },
            }
            s
        },
        NodeKind::Switch(id) => numbered("Switch(#", id.0 as u128, ")"),
        NodeKind::Call { cc } => match cc {
            Some(id) => numbered("Call(#", id.0 as u128, ")"),
            None => "Call".to_owned(),
        },
        NodeKind::CallOther { user_op_id } => numbered(
            "CallOther { user_op_id: ",
            user_op_id as u128,
            " }",
        ),
        NodeKind::Load(space) => wrapped("Load(", shortcut_str(space).as_str(), ")"),
        NodeKind::Store(space) => wrapped("Store(", shortcut_str(space).as_str(), ")"),
        NodeKind::StackStore { space, offset } => {
            let mut s = wrapped("StackStore(", shortcut_str(space).as_str(), "[");
            push_signed(&mut s, offset);
            s.append("])");
            s
        },
        NodeKind::StackStorePhi { space } => wrapped(
            "StackStorePhi(",
            shortcut_str(space).as_str(),
            ")",
        ),
        NodeKind::IntConst(id) => numbered("IntConst(#", id.0 as u128, ")"),
        NodeKind::FloatConst(bits) => numbered("FloatConst(", bits as u128, ")"),
        NodeKind::BoolConst(b) => {
            let mut s = "BoolConst(".to_owned();
            push_bool(&mut s, b);
            s.append(")");
            s
        },
        NodeKind::SegmentOp { op_id } => numbered("SegmentOp { op_id: ", op_id as u128, " }"),
        _ => bare_name(kind).to_owned(),
    }
}

/// Numbers with commas between them.
pub open spec fn limbs_joined(limbs: Seq<u64>, n: int) -> Seq<char>
    decreases n,
{
    if n <= 0 {
        Seq::empty()
    } else if n == 1 {
        dec(limbs[0] as nat)
    } else {
        limbs_joined(limbs, n - 1) + ", "@ + dec(limbs[n - 1] as nat)
    }
}

/// The value of a constant as it is stored.
pub open spec fn stored_text(f: &Function, kind: NodeKind) -> Seq<char> {
    match kind {
        NodeKind::IntConst(id) => "\n= "@ + (if id.0 < f.consts().len() {
            match f.consts()[id.0 as int] {
                ConstModel::Bits(v) => "Bits("@ + dec(v as nat) + ")"@,
                ConstModel::Wide(limbs) => "Wide(["@ + limbs_joined(limbs, limbs.len() as int)
                    + "])"@,
            }
        } else {
            "<dangling const ConstId("@ + dec(id.0 as nat) + ")>"@
        }),
        _ => ""@,
    }
}

fn push_stored(s: &mut String, f: &Function, kind: &NodeKind)
    requires
        f.wf(),
    ensures
        final(s)@ == old(s)@ + stored_text(f, *kind),
{
    let ghost start = s@;
    match *kind {
        NodeKind::IntConst(id) => {
            s.append("\n= ");
            let ghost head = s@;
            match f.const_value_opt(id) {
                Some(ConstValue::Bits(v)) => {
                    s.append("Bits(");
                    push_dec(s, *v);
                    s.append(")");
                },
                Some(ConstValue::Wide(limbs)) => {
                    s.append("Wide([");
                    let ghost open = s@;
                    let mut i: usize = 0;
                    assert(s@ =~= open + limbs_joined(limbs@, 0));
                    while i < limbs.len()
                        invariant
                            i <= limbs.len(),
                            s@ == open + limbs_joined(limbs@, i as int),
                        decreases limbs.len() - i,
                    {
                        if i > 0 {
                            s.append(", ");
                        }
                        push_dec(s, limbs[i] as u128);
                        i += 1;
                        assert(s@ =~= open + limbs_joined(limbs@, i as int));
                    }
                    s.append("])");
                },
                None => {
                    s.append("<dangling const ConstId(");
                    push_dec(s, id.0 as u128);
                    s.append(")>");
                },
            }
        },
        _ => {
            s.append("");
        },
    }
    assert(s@ =~= start + stored_text(f, *kind));
}

/// The kinds of the first `n` outputs with commas between them.
pub open spec fn outs_joined(f: &Function, node: NodeId, n: int) -> Seq<char>
    decreases n,
{
    if n <= 0 {
        "\nout: "@
    } else {
        outs_joined(f, node, n - 1) + (if n == 1 {
            ""@
        } else {
            ", "@
        }) + value_kind_debug(f.g().value_kind(f.g().outs(node)[n - 1]))
    }
}

pub open spec fn outs_text(f: &Function, node: NodeId) -> Seq<char> {
    if f.g().outs(node).len() == 0 {
        ""@
    } else {
        outs_joined(f, node, f.g().outs(node).len() as int)
    }
}

fn push_outs(s: &mut String, f: &Function, node: NodeId)
    requires
        f.wf(),
        f.g().has_node(node),
    ensures
        final(s)@ == old(s)@ + outs_text(f, node),
{
    let ghost start = s@;
    let outs = f.node_outputs(node);
    if outs.len() == 0 {
        s.append("");
        return ;
    }
    s.append("\nout: ");
    let mut i: usize = 0;
    while i < outs.len()
        invariant
            f.wf(),
            i <= outs.len(),
            outs@ == f.g().outs(node),
            forall|k: int| 0 <= k < outs@.len() ==> f.g().has_value(#[trigger] outs@[k]),
            s@ == start + outs_joined(f, node, i as int),
        decreases outs.len() - i,
    {
        if i > 0 {
            s.append(", ");
        } else {
            s.append("");
        }
        push_value_kind(s, f.value_kind(outs[i]));
        i += 1;
        assert(s@ =~= start + outs_joined(f, node, i as int));
    }
}

/// The varnode that the first output is tagged with.
pub open spec fn first_tag(f: &Function, node: NodeId) -> Option<Vn> {
    if f.g().outs(node).len() > 0 {
        f.vn_for(f.g().outs(node)[0])
    } else {
        None
    }
}

/// How many of the first `n` outputs are tagged.
pub open spec fn tagged_outputs(f: &Function, node: NodeId, n: int) -> nat
    decreases n,
{
    if n <= 0 {
        0
    } else {
        tagged_outputs(f, node, n - 1) + if f.vn_for(f.g().outs(node)[n - 1]) is Some {
            1nat
        } else {
            0
        }
    }
}

/// The arguments of one class, with commas between them.
pub open spec fn indices_joined(tags: Seq<ArgTag>, float: bool, n: int) -> Seq<char>
    decreases n,
{
    if n <= 0 {
        Seq::empty()
    } else {
        let rest = indices_joined(tags, float, n - 1);
        if tags[n - 1].float != float {
            rest
        } else if rest.len() == 0 {
            dec(tags[n - 1].index as nat)
        } else {
            rest + ", "@ + dec(tags[n - 1].index as nat)
        }
    }
}

/// The arguments of one class in brackets, where there are any.
pub open spec fn carried_text(tags: Seq<ArgTag>, float: bool) -> Seq<char> {
    let list = indices_joined(tags, float, tags.len() as int);
    if list.len() == 0 {
        ""@
    } else {
        (if float {
            "\nfloat_arg["@
        } else {
            "\narg["@
        }) + list + "]"@
    }
}

fn push_carried(s: &mut String, tags: &Vec<ArgTag>, float: bool)
    ensures
        final(s)@ == old(s)@ + carried_text(tags@, float),
{
    let ghost start = s@;
    let mut list = String::new();
    let mut any = false;
    let mut i: usize = 0;
    while i < tags.len()
        invariant
            i <= tags.len(),
            list@ == indices_joined(tags@, float, i as int),
            any == (list@.len() > 0),
        decreases tags.len() - i,
    {
        if tags[i].float == float {
            if any {
                list.append(", ");
            }
            push_dec(&mut list, tags[i].index as u128);
            any = true;
            proof {
                crate::fmt::lemma_dec_nonempty(tags@[i as int].index as nat);
            }
        }
        i += 1;
        assert(list@ =~= indices_joined(tags@, float, i as int));
    }
    if any {
        if float {
            s.append("\nfloat_arg[");
        } else {
            s.append("\narg[");
        }
        s.append(list.as_str());
        s.append("]");
    } else {
        s.append("");
    }
    assert(s@ =~= start + carried_text(tags@, float));
}

/// What the side tables hold of a node.
pub open spec fn notes_text(f: &Function, node: NodeId) -> Seq<char> {
    let place = match f.sp_offset(node) {
        Some((_, off)) => "\nsp["@ + signed_dec(off as int) + "]"@,
        None => ""@,
    };
    let tag = match first_tag(f, node) {
        Some(vn) => "\ntag="@ + raw_vn_text(vn),
        None => ""@,
    };
    let name = match f.user_op_name(node) {
        Some(text) => "\nop="@ + text,
        None => ""@,
    };
    let clobbers = if f.g().kind(node) is Call {
        "\nclobbers="@ + dec(tagged_outputs(f, node, f.g().outs(node).len() as int))
    } else {
        ""@
    };
    place + tag + name + clobbers
}

fn push_wide_signed(s: &mut String, n: i128)
    ensures
        final(s)@ == old(s)@ + signed_dec(n as int),
{
    let ghost start = s@;
    if n < 0 {
        s.append("-");
        push_dec(s, (-(n + 1)) as u128 + 1);
    } else {
        push_dec(s, n as u128);
    }
    assert(s@ =~= start + signed_dec(n as int));
}

fn push_notes(s: &mut String, f: &Function, node: NodeId)
    requires
        f.wf(),
        f.g().has_node(node),
    ensures
        final(s)@ == old(s)@ + notes_text(f, node),
{
    let ghost start = s@;
    let mut place = String::new();
    if let Some((_, off)) = f.stack_offset(node) {
        place = "\nsp[".to_owned();
        push_wide_signed(&mut place, off);
        place.append("]");
    }
    let outs = f.node_outputs(node);
    let mut tag = String::new();
    if outs.len() > 0 {
        if let Some(vn) = f.get_vn_for_value(outs[0]) {
            tag = "\ntag=".to_owned();
            tag.append(fmt_vn(&vn).as_str());
        }
    }
    let mut name = String::new();
    if let Some(text) = f.call_other_name(node) {
        name = "\nop=".to_owned();
        name.append(text);
    }
    let mut clobbers = String::new();
    if matches!(*f.node_kind(node), NodeKind::Call { .. }) {
        let mut count: u128 = 0;
        let mut i: usize = 0;
        while i < outs.len()
            invariant
                f.wf(),
                i <= outs.len(),
                outs@ == f.g().outs(node),
                forall|k: int| 0 <= k < outs@.len() ==> f.g().has_value(#[trigger] outs@[k]),
                count == tagged_outputs(f, node, i as int),
                count <= i,
            decreases outs.len() - i,
        {
            if f.get_vn_for_value(outs[i]).is_some() {
                count += 1;
            }
            i += 1;
        }
        clobbers = "\nclobbers=".to_owned();
        push_dec(&mut clobbers, count);
    }
    proof {
        reveal_strlit("");
        assert(""@ =~= Seq::<char>::empty());
    }
    s.append(place.as_str());
    s.append(tag.as_str());
    s.append(name.as_str());
    s.append(clobbers.as_str());
    assert(s@ =~= start + notes_text(f, node));
}

/// The id of a node.
pub open spec fn raw_id(n: NodeId) -> Seq<char> {
    "n"@ + dec(n.0 as nat)
}

/// The label of a node: its number and kind, its value if it is a constant,
/// the kinds of its outputs, and every entry that the side tables have of it.
pub open spec fn raw_label(f: &Function, node: NodeId) -> Seq<char> {
    let kind = f.g().kind(node);
    let tags = arg_tags(f, node);
    raw_id(node) + "  "@ + kind_debug(f, kind) + stored_text(f, kind) + outs_text(f, node)
        + notes_text(f, node) + carried_text(tags, false) + carried_text(tags, true)
}

/// The edge into an input: which output it comes from, and which input it is.
pub open spec fn raw_edge(f: &Function, node: NodeId, i: int) -> StmtModel {
    let v = f.g().ins(node)[i];
    edge_stmt(
        raw_id(f.g().producer(v)),
        raw_id(node),
        seq![("label"@, dec(f.g().values[v.0 as int].index as nat) + ":"@ + dec(i as nat))],
    )
}

/// The edges into the first `k` inputs from nodes in view.
pub open spec fn raw_edges(f: &Function, view: Option<Set<NodeId>>, node: NodeId, k: int) -> Seq<
    StmtModel,
>
    decreases k,
{
    if k <= 0 {
        Seq::empty()
    } else {
        let rest = raw_edges(f, view, node, k - 1);
        match view {
            Some(set) => if set.contains(f.g().producer(f.g().ins(node)[k - 1])) {
                rest.push(raw_edge(f, node, k - 1))
            } else {
                rest
            },
            None => rest.push(raw_edge(f, node, k - 1)),
        }
    }
}

/// The box of a node; the centre has a bright border.
pub open spec fn raw_box(f: &Function, center: Option<NodeId>, node: NodeId) -> StmtModel {
    node_stmt(
        raw_id(node),
        raw_label(f, node),
        "box"@,
        if center == Some(node) {
            seq![("color"@, "\"#ffcc00\""@), ("penwidth"@, "2.5"@)]
        } else {
            Seq::empty()
        },
    )
}

/// Each of the first `k` nodes with the edges that lead to it.
pub open spec fn raw_nodes(f: &Function, order: Seq<NodeId>, k: int) -> Seq<StmtModel>
    decreases k,
{
    if k <= 0 {
        Seq::empty()
    } else {
        let n = order[k - 1];
        raw_nodes(f, order, k - 1).push(raw_box(f, None, n)) + raw_edges(
            f,
            None,
            n,
            f.g().ins(n).len() as int,
        )
    }
}

/// The boxes of the first `k` nodes.
pub open spec fn raw_boxes(f: &Function, center: NodeId, order: Seq<NodeId>, k: int) -> Seq<
    StmtModel,
>
    decreases k,
{
    if k <= 0 {
        Seq::empty()
    } else {
        raw_boxes(f, center, order, k - 1).push(raw_box(f, Some(center), order[k - 1]))
    }
}

/// The edges among the first `k` nodes.
pub open spec fn raw_links(f: &Function, view: Set<NodeId>, order: Seq<NodeId>, k: int) -> Seq<
    StmtModel,
>
    decreases k,
{
    if k <= 0 {
        Seq::empty()
    } else {
        raw_links(f, view, order, k - 1) + raw_edges(
            f,
            Some(view),
            order[k - 1],
            f.g().ins(order[k - 1]).len() as int,
        )
    }
}

fn raw_name(n: NodeId) -> (r: String)
    ensures
        r@ == raw_id(n),
{
    let mut s = "n".to_owned();
    push_dec(&mut s, n.0 as u128);
    s
}

/// Draws a function as it is stored.
pub struct RawFunctionDumper<'a> {
    function: &'a Function,
    /// The arguments that each node carries.
    arg_index: IdMap<Vec<ArgTag>>,
}

impl<'a> RawFunctionDumper<'a> {
    pub closed spec fn f(&self) -> Function {
        *self.function
    }

    pub closed spec fn wf(&self) -> bool {
        self.function.wf() && holds_tags(self.function, &self.arg_index)
    }

    pub fn new(function: &'a Function) -> (r: Self)
        requires
            function.wf(),
        ensures
            r.wf(),
            r.f() == *function,
    {
        RawFunctionDumper { function, arg_index: build_arg_reverse_map(function) }
    }

    /// The label of a node.
    pub fn node_label(&self, node: NodeId) -> (r: String)
        requires
            self.wf(),
            self.f().g().has_node(node),
        ensures
            r@ == raw_label(&self.f(), node),
    {
        let f = self.function;
        let kind = *f.node_kind(node);
        let mut s = raw_name(node);
        s.append("  ");
        s.append(kind_str(f, &kind).as_str());
        push_stored(&mut s, f, &kind);
        push_outs(&mut s, f, node);
        push_notes(&mut s, f, node);
        match self.arg_index.get(node.0) {
            Some(tags) => {
                push_carried(&mut s, tags, false);
                push_carried(&mut s, tags, true);
            },
            None => {
                proof {
                    reveal_strlit("");
                    assert(arg_tags(f, node) =~= Seq::empty());
                    assert(s@ + carried_text(arg_tags(f, node), false) =~= s@);
                    assert(s@ + carried_text(arg_tags(f, node), true) =~= s@);
                }
            },
        }
        s
    }

    /// Draws the edges into a node from nodes in view.
    fn emit_edges(&self, node: NodeId, view: Option<&NodeIdSet>, out: &mut DotEmitter)
        requires
            self.wf(),
            self.f().g().has_node(node),
        ensures
            final(out)@ == old(out)@ + raw_edges(
                &self.f(),
                match view {
                    Some(set) => Some(set@),
                    None => None,
                },
                node,
                self.f().g().ins(node).len() as int,
            ),
            final(out).same_frame(old(out)),
    {
        let f = self.function;
        proof {
            f.lemma_wf();
        }
        let ghost start = out@;
        let ghost shown = match view {
            Some(set) => Some(set@),
            None => None,
        };
        let dot_id = raw_name(node);
        let count = f.node_inputs(node).len();
        let mut i: usize = 0;
        assert(out@ =~= start + raw_edges(f, shown, node, 0));
        while i < count
            invariant
                self.wf(),
                f == self.function,
                f.wf(),
                f.g().valid(),
                f.g().has_node(node),
                count == f.g().ins(node).len(),
                i <= count,
                dot_id@ == raw_id(node),
                shown == (match view {
                    Some(set) => Some(set@),
                    None => None,
                }),
                out@ == start + raw_edges(f, shown, node, i as int),
                out.same_frame(old(out)),
            decreases count - i,
        {
            proof {
                lemma_feeds_node(f.g(), node, i as int);
            }
            let value = f.node_inputs(node).at(i);
            let (producer, slot) = f.value_definition(value);
            let seen = match view {
                Some(set) => set.contains(producer),
                None => true,
            };
            if seen {
                let mut label = String::new();
                push_dec(&mut label, slot as u128);
                assert(label@ =~= dec(slot as nat));
                label.append(":");
                push_dec(&mut label, i as u128);
                let mut extra = no_attrs();
                push_attr(&mut extra, "label", label.as_str());
                proof {
                    assert(attr_models(extra@) =~= seq![("label"@, label@)]);
                }
                out.edge(raw_name(producer).as_str(), dot_id.as_str(), extra);
            }
            i += 1;
            assert(out@ =~= start + raw_edges(f, shown, node, i as int));
        }
    }

    /// Draws the box of a node.
    fn emit_box(&self, node: NodeId, center: Option<NodeId>, out: &mut DotEmitter)
        requires
            self.wf(),
            self.f().g().has_node(node),
        ensures
            final(out)@ == old(out)@.push(raw_box(&self.f(), center, node)),
            final(out).same_frame(old(out)),
    {
        let mut extra = no_attrs();
        if let Some(c) = center {
            if c.0 == node.0 {
                push_attr(&mut extra, "color", "\"#ffcc00\"");
                push_attr(&mut extra, "penwidth", "2.5");
                proof {
                    assert(attr_models(extra@) =~= seq![
                        ("color"@, "\"#ffcc00\""@),
                        ("penwidth"@, "2.5"@),
                    ]);
                }
            }
        }
        let label = self.node_label(node);
        out.node(raw_name(node).as_str(), label.as_str(), "box", extra);
    }

    /// Draws a node with the edges that lead to it.
    pub fn dump_as_dot(&self, node: NodeId, out: &mut DotEmitter)
        requires
            self.wf(),
            self.f().g().has_node(node),
        ensures
            final(out)@ == old(out)@.push(raw_box(&self.f(), None, node)) + raw_edges(
                &self.f(),
                None,
                node,
                self.f().g().ins(node).len() as int,
            ),
            final(out).same_frame(old(out)),
    {
        self.emit_box(node, None, out);
        self.emit_edges(node, None, out);
    }

    /// A drawing of the nodes around `center`.
    pub fn neighborhood_dot(
        &self,
        center: NodeId,
        depth: usize,
        hub_cap: usize,
        max_nodes: usize,
        count_producers: bool,
    ) -> (r: String)
        requires
            self.wf(),
            self.f().g().has_node(center),
        ensures
            raw_around(
                &self.f(),
                center,
                (Limits { depth, hub_cap, max_nodes, count_producers }),
                r@,
            ),
    {
        let f = self.function;
        let consumers = build_consumers(f);
        let set = neighborhood_nodes(
            f,
            center,
            depth,
            hub_cap,
            max_nodes,
            count_producers,
            &consumers,
        );
        let order = set.to_vec();
        proof {
            assert forall|i: int| 0 <= i < order@.len() implies f.g().has_node(
                #[trigger] order@[i],
            ) by {
                assert(order@.contains(order@[i]));
            }
        }
        let mut out = DotEmitter::new("G", &DotStyle::dark());
        let mut i: usize = 0;
        assert(out@ =~= raw_boxes(f, center, order@, 0));
        while i < order.len()
            invariant
                self.wf(),
                f == self.function,
                i <= order.len(),
                forall|k: int| 0 <= k < order@.len() ==> f.g().has_node(#[trigger] order@[k]),
                out@ == raw_boxes(f, center, order@, i as int),
                out.title() == "G"@,
                out.look() == DotStyle::Dark,
            decreases order.len() - i,
        {
            self.emit_box(order[i], Some(center), &mut out);
            i += 1;
        }
        let ghost boxes = out@;
        let mut j: usize = 0;
        assert(out@ =~= boxes + raw_links(f, set@, order@, 0));
        while j < order.len()
            invariant
                self.wf(),
                f == self.function,
                j <= order.len(),
                forall|k: int| 0 <= k < order@.len() ==> f.g().has_node(#[trigger] order@[k]),
                out@ == boxes + raw_links(f, set@, order@, j as int),
                out.title() == "G"@,
                out.look() == DotStyle::Dark,
            decreases order.len() - j,
        {
            self.emit_edges(order[j], Some(&set), &mut out);
            j += 1;
            assert(out@ =~= boxes + raw_links(f, set@, order@, j as int));
        }
        let r = out.finish();
        proof {
            let g = f.g();
            let walk = walk_order(g, f.entry_node());
            let a = |p: NodeId| listed(&consumers, p);
            let b = |p: NodeId| consumers_in(g, walk, p);
            assert(a =~= b);
            assert(ascending_nodes(order@));
        }
        r
    }
}

/// The text of a drawing of the nodes around `center`: a box for each, then
/// every edge between two of them.
pub open spec fn raw_around(f: &Function, center: NodeId, lim: Limits, text: Seq<char>) -> bool {
    exists|order: Seq<NodeId>| #[trigger]
        ascending_nodes(order) && {
            let walk = walk_order(f.g(), f.entry_node());
            let set = neighborhood(f.g(), center, lim, |p: NodeId| consumers_in(f.g(), walk, p));
            &&& forall|n: NodeId| #[trigger] order.contains(n) <==> set.contains(n)
            &&& text == around_text(f, center, set, order)
        }
}

/// A box for each of the listed nodes, then every edge between two of a set.
pub open spec fn around_text(
    f: &Function,
    center: NodeId,
    set: Set<NodeId>,
    order: Seq<NodeId>,
) -> Seq<char> {
    dot_text(
        "G"@,
        DotStyle::Dark,
        raw_boxes(f, center, order, order.len() as int) + raw_links(
            f,
            set,
            order,
            order.len() as int,
        ),
    )
}

impl Function {
    /// A drawing of the function exactly as it is stored: every node that can
    /// be reached, every input, and what the side tables hold.
    pub fn raw_dot(&self) -> (r: String)
        requires
            self.wf(),
        ensures
            ({
                let walk = walk_order(self.g(), self.entry_node());
                r@ == dot_text("G"@, DotStyle::Dark, raw_nodes(self, walk, walk.len() as int))
            }),
    {
        let dumper = RawFunctionDumper::new(self);
        let order = self.walk();
        let mut out = DotEmitter::new("G", &DotStyle::dark());
        let mut i: usize = 0;
        assert(out@ =~= raw_nodes(self, order@, 0));
        while i < order.len()
            invariant
                dumper.wf(),
                dumper.f() == *self,
                i <= order.len(),
                forall|k: int| 0 <= k < order@.len() ==> self.g().has_node(#[trigger] order@[k]),
                out@ == raw_nodes(self, order@, i as int),
                out.title() == "G"@,
                out.look() == DotStyle::Dark,
            decreases order.len() - i,
        {
            dumper.dump_as_dot(order[i], &mut out);
            i += 1;
        }
        out.finish()
    }

    /// A drawing of the nodes around `center` as they are stored.
    pub fn raw_neighborhood_dot(
        &self,
        center: NodeId,
        depth: usize,
        hub_cap: usize,
        max_nodes: usize,
        count_producers: bool,
    ) -> (r: String)
        requires
            self.wf(),
            self.g().has_node(center),
        ensures
            raw_around(
                self,
                center,
                (Limits { depth, hub_cap, max_nodes, count_producers }),
                r@,
            ),
    {
        RawFunctionDumper::new(self).neighborhood_dot(
            center,
            depth,
            hub_cap,
            max_nodes,
            count_producers,
        )
    }
}

/// Drawing the nodes around a node twice gives the same text.
pub proof fn law_raw_drawing_is_determined(
    f: &Function,
    center: NodeId,
    lim: Limits,
    a: Seq<char>,
    b: Seq<char>,
)
    requires
        raw_around(f, center, lim, a),
        raw_around(f, center, lim, b),
    ensures
        a == b,
{
    let walk = walk_order(f.g(), f.entry_node());
    let set = neighborhood(f.g(), center, lim, |p: NodeId| consumers_in(f.g(), walk, p));
    let x = choose|order: Seq<NodeId>| #[trigger]
        ascending_nodes(order) && (forall|n: NodeId| #[trigger]
            order.contains(n) <==> set.contains(n)) && a == around_text(f, center, set, order);
    let y = choose|order: Seq<NodeId>| #[trigger]
        ascending_nodes(order) && (forall|n: NodeId| #[trigger]
            order.contains(n) <==> set.contains(n)) && b == around_text(f, center, set, order);
    crate::entity_set::lemma_ascending_nodes_unique(x, y);
}

} // verus!
