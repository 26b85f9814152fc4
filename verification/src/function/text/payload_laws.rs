//! What a line of the text form says beside the operation.

use super::render::{
    addrs_joined, all_fields_text, arg_line, arg_lines, cc_field_texts, differing_text,
    fingerprint_text, function_text, header_text, inputs_text, line_text, lines_text,
    numbers_joined, numbers_of, op_text, outputs_text, payload, payload_text, printed, quoted_text,
    some_differ, space_text, tag_text, value_kind_text, value_name, value_number, vn_list_text,
    vn_text, vns_joined,
};
use crate::const_value::const_number;
use crate::fmt::{bool_text, dec, hex, signed_dec};
use crate::function::func::Function;
use crate::function::side_tables::ArgClass;
use crate::graph::model::GraphModel;
use crate::mem_partition::AliasClass;
use crate::node::{NodeId, NodeKind, ValueId, ValueKind};
use crate::target::{CcModel, Endianness, Vn};
use vstd::prelude::*;

verus! {

/// The names of the kinds of values.
pub proof fn law_value_kind_names(kind: ValueKind)
    ensures
        kind is Control ==> value_kind_text(kind) == "ctrl"@,
        kind is PhiToken ==> value_kind_text(kind) == "token"@,
        kind is Memory ==> value_kind_text(kind) == "mem"@,
        kind == ValueKind::MemoryPart(AliasClass::Stack) ==> value_kind_text(kind) == "mem.stack"@,
        kind == ValueKind::MemoryPart(AliasClass::Heap) ==> value_kind_text(kind) == "mem.heap"@,
        kind == ValueKind::MemoryPart(AliasClass::Rom) ==> value_kind_text(kind) == "mem.rom"@,
        kind == ValueKind::MemoryPart(AliasClass::Unknown) ==> value_kind_text(kind)
            == "mem.unknown"@,
        kind matches ValueKind::Typed(ty) ==> value_kind_text(kind) == (if ty.integer() {
            "i"@
        } else {
            "f"@
        }) + dec(ty.width()),
{
    if let ValueKind::Typed(ty) = kind {
        crate::kind_laws::law_type_names_say_class_and_width(ty);
    }
}

/// What stands in brackets behind the name of each operation.
pub proof fn law_payloads(f: &Function, n: NodeId)
    ensures
        f.g().kind(n) matches NodeKind::InitialVar(id) ==> payload(f, n) == Some(
            if id.0 < f.vns().len() {
                vn_text(f.vns()[id.0 as int])
            } else {
                "?"@
            },
        ),
        f.g().kind(n) matches NodeKind::FunctionArg { source, index } ==> payload(f, n) == Some(
            dec(index as nat),
        ),
        f.g().kind(n) matches NodeKind::Load(space) ==> payload(f, n) == Some(space_text(space)),
        f.g().kind(n) matches NodeKind::Store(space) ==> payload(f, n) == Some(space_text(space)),
        f.g().kind(n) matches NodeKind::StackStorePhi { space } ==> payload(f, n) == Some(
            space_text(space),
        ),
        f.g().kind(n) matches NodeKind::StackStore { space, offset } ==> payload(f, n) == Some(
            space_text(space) + ":"@ + (if offset < 0 {
                "-"@ + dec((-offset) as nat)
            } else {
                dec(offset as nat)
            }),
        ),
        f.g().kind(n) matches NodeKind::IntConst(id) ==> payload(f, n) == Some(
            if id.0 < f.consts().len() {
                "0x"@ + hex(const_number(f.consts()[id.0 as int]))
            } else {
                "?"@
            },
        ),
        f.g().kind(n) matches NodeKind::FloatConst(bits) ==> payload(f, n) == Some(
            "0x"@ + hex(bits as nat),
        ),
        f.g().kind(n) matches NodeKind::BoolConst(b) ==> payload(f, n) == Some(
            if b {
                "true"@
            } else {
                "false"@
            },
        ),
        f.g().kind(n) matches NodeKind::CallOther { user_op_id } ==> payload(f, n) == Some(
            match f.user_op_name(n) {
                Some(name) => dec(user_op_id as nat) + " "@ + quoted_text(name),
                None => dec(user_op_id as nat),
            },
        ),
        f.g().kind(n) matches NodeKind::SegmentOp { op_id } ==> payload(f, n) == Some(
            dec(op_id as nat),
        ),
        f.g().kind(n) == (NodeKind::Call { cc: None }) ==> payload(f, n) is None,
        f.g().kind(n) is Entry || f.g().kind(n) is InitialMemory || f.g().kind(n) is Region
            || f.g().kind(n) is ControlState || f.g().kind(n) is MemPhi || f.g().kind(n) is Phi
            || f.g().kind(n) is If || f.g().kind(n) is Return || f.g().kind(n) is IndirectBranch
            || f.g().kind(n) is Unreachable ==> payload(f, n) is None,
        f.g().kind(n) is IntUnaryOp || f.g().kind(n) is IntBinaryOp || f.g().kind(n) is IntCmpOp
            || f.g().kind(n) is Truncate || f.g().kind(n) is Popcount || f.g().kind(n) is Lzcount
            || f.g().kind(n) is Extend || f.g().kind(n) is CastToBool || f.g().kind(n) is CastToInt
            || f.g().kind(n) is CastToFloat || f.g().kind(n) is BoolBinaryOp || f.g().kind(
            n,
        ) is BoolUnaryOp ==> payload(f, n) is None,
        f.g().kind(n) is FloatBinaryOp || f.g().kind(n) is FloatUnaryOp || f.g().kind(
            n,
        ) is FloatCmpOp || f.g().kind(n) is IntToFloat || f.g().kind(n) is FloatToInt || f.g().kind(
            n,
        ) is FloatToFloat || f.g().kind(n) is IntBitsToFloat || f.g().kind(n) is FloatBitsToInt
            || f.g().kind(n) is CPoolRef || f.g().kind(n) is New || f.g().kind(n) is MemProject
            || f.g().kind(n) is MemUnion ==> payload(f, n) is None,
        payload(f, n) matches Some(text) ==> payload_text(f, n) == "["@ + text + "]"@,
        payload(f, n) is None ==> payload_text(f, n).len() == 0,
{
}

/// A switch lists its cases in order, in hexadecimal with commas between them.
pub proof fn law_addresses_are_listed_in_order(addrs: Seq<u64>, a: u64)
    ensures
        addrs_joined(Seq::empty()).len() == 0,
        addrs_joined(seq![a]) == "0x"@ + hex(a as nat),
        addrs.len() > 0 ==> addrs_joined(addrs.push(a)) == addrs_joined(addrs) + ", "@ + ("0x"@
            + hex(a as nat)),
{
    assert(addrs.push(a).drop_last() =~= addrs);
}

/// A call with a convention of its own says in what it differs from that of
/// the function, and nothing where it does not differ.
pub proof fn law_call_without_differences_says_nothing(f: &Function, n: NodeId, id: u32)
    requires
        f.g().kind(n) == (NodeKind::Call { cc: Some(crate::node::CcId(id)) }),
        id < f.ccs().len(),
        f.ccs()[id as int] == f.cc_default()@,
    ensures
        payload(f, n) == Some(Seq::<char>::empty()),
{
    let texts = cc_field_texts(f.cc_default()@);
    lemma_no_difference(texts, 12);
}

proof fn lemma_no_difference(texts: Seq<(Seq<char>, Seq<char>)>, n: int)
    ensures
        super::render::differing_text(texts, texts, n) == Seq::<char>::empty(),
    decreases n,
{
    if n > 0 {
        lemma_no_difference(texts, n - 1);
    }
}

/// The fields of a convention, each under its name.
pub proof fn law_convention_fields(cc: CcModel)
    ensures
        ({
            let t = cc_field_texts(cc);
            &&& t.len() == 12
            &&& t[0] == ("arg_passing_regs"@, vn_list_text(cc.arg_passing_regs))
            &&& t[1] == ("arg_passing_regs_float"@, vn_list_text(cc.arg_passing_regs_float))
            &&& t[2] == ("callee_saved_regs"@, vn_list_text(cc.callee_saved_regs))
            &&& t[3] == ("ret_val_regs"@, vn_list_text(cc.ret_val_regs))
            &&& t[4] == ("ret_val_regs_float"@, vn_list_text(cc.ret_val_regs_float))
            &&& t[5] == ("stack_vn"@, vn_text(cc.stack_vn))
            &&& t[6].0 == "stack_args"@
            &&& cc.stack_args is None ==> t[6].1 == "none"@
            &&& cc.stack_args matches Some(s) ==> t[6].1 == signed_dec(s.base_offset as int) + "+"@
                + signed_dec(s.increment as int) + "n"@
            &&& t[7] == ("ret_stack_pop"@, signed_dec(cc.ret_stack_pop as int))
            &&& t[8].0 == "link_register_vn"@
            &&& cc.link_register_vn is None ==> t[8].1 == "none"@
            &&& cc.link_register_vn matches Some(vn) ==> t[8].1 == vn_text(vn)
            &&& t[9] == ("preserves_memory"@, bool_text(cc.preserves_memory))
            &&& t[10] == ("preserves_all_registers"@, bool_text(cc.preserves_all_registers))
            &&& t[11] == ("no_return"@, bool_text(cc.no_return))
        }),
{
}

/// The head of a text: the byte order, the tracked varnodes and the convention.
pub proof fn law_text_head(f: &Function)
    ensures
        f.endian() == Endianness::Little ==> starts(
            header_text(f),
            "endian "@ + "little"@ + "\n"@ + "tracked "@ + vn_list_text(f.vns()) + "\n"@
                + "default_cc"@,
        ),
        f.endian() == Endianness::Big ==> starts(
            header_text(f),
            "endian "@ + "big"@ + "\n"@ + "tracked "@ + vn_list_text(f.vns()) + "\n"@
                + "default_cc"@,
        ),
{
    let order = if f.endian() is Little {
        "little"@
    } else {
        "big"@
    };
    let head = "endian "@ + order + "\n"@ + "tracked "@ + vn_list_text(f.vns()) + "\n"@
        + "default_cc"@;
    assert(header_text(f).take(head.len() as int) =~= head);
}

/// A text starts with another.
pub open spec fn starts(text: Seq<char>, head: Seq<char>) -> bool {
    head.len() <= text.len() && text.take(head.len() as int) == head
}

/// The inputs of a node come in order behind the operation, the first after a
/// blank and the others after commas; its outputs come in order before it.
pub proof fn law_inputs_and_outputs_in_order(f: &Function, order: Seq<NodeId>, n: NodeId)
    ensures
        inputs_text(f, order, n, 0).len() == 0,
        outputs_text(f, order, n, 0).len() == 0,
        f.g().ins(n).len() == 1 ==> inputs_text(f, order, n, 1) == " "@ + value_name(
            f.g(),
            order,
            f.g().ins(n)[0],
        ),
        f.g().ins(n).len() == 2 ==> inputs_text(f, order, n, 2) == " "@ + value_name(
            f.g(),
            order,
            f.g().ins(n)[0],
        ) + ", "@ + value_name(f.g(), order, f.g().ins(n)[1]),
        f.g().outs(n).len() == 1 ==> outputs_text(f, order, n, 1) == value_name(
            f.g(),
            order,
            f.g().outs(n)[0],
        ) + ":"@ + value_kind_text(f.g().value_kind(f.g().outs(n)[0])) + tag_text(
            f,
            f.g().outs(n)[0],
        ),
{
    reveal_with_fuel(inputs_text, 3);
    reveal_with_fuel(outputs_text, 2);
    assert(inputs_text(f, order, n, 1) =~= " "@ + value_name(f.g(), order, f.g().ins(n)[0]));
    assert(inputs_text(f, order, n, 2) =~= " "@ + value_name(f.g(), order, f.g().ins(n)[0]) + ", "@
        + value_name(f.g(), order, f.g().ins(n)[1]));
    let v = f.g().outs(n)[0];
    assert(outputs_text(f, order, n, 1) =~= value_name(f.g(), order, v) + ":"@ + value_kind_text(
        f.g().value_kind(v),
    ) + tag_text(f, v));
}

/// A line: outputs, an equals sign if there are any, the operation, what
/// stands in brackets and the inputs. A region has an empty line before it.
pub proof fn law_lines(f: &Function, order: Seq<NodeId>, n: NodeId)
    ensures
        ({
            let g = f.g();
            let outs = outputs_text(f, order, n, g.outs(n).len() as int);
            let ins = inputs_text(f, order, n, g.ins(n).len() as int);
            let tail = op_text(g.kind(n)) + payload_text(f, n) + ins + "\n"@;
            &&& !(g.kind(n) is Region) && g.outs(n).len() > 0 ==> line_text(f, order, n, false)
                == outs + " = "@ + tail
            &&& !(g.kind(n) is Region) && g.outs(n).len() == 0 ==> line_text(f, order, n, false)
                == tail
            &&& g.kind(n) is Region && g.outs(n).len() > 0 ==> line_text(f, order, n, false)
                == "\n"@ + outs + " = "@ + tail
        }),
{
    let g = f.g();
    let outs = outputs_text(f, order, n, g.outs(n).len() as int);
    let ins = inputs_text(f, order, n, g.ins(n).len() as int);
    let tail = op_text(g.kind(n)) + payload_text(f, n) + ins + "\n"@;
    if g.outs(n).len() == 0 {
        assert(line_text(f, order, n, false) =~= (if g.kind(n) is Region {
            "\n"@
        } else {
            Seq::empty()
        }) + tail);
    } else {
        assert(line_text(f, order, n, false) =~= (if g.kind(n) is Region {
            "\n"@
        } else {
            Seq::empty()
        }) + outs + " = "@ + tail);
        if !(g.kind(n) is Region) {
            assert(Seq::<char>::empty() + outs + " = "@ + tail =~= outs + " = "@ + tail);
        }
    }
}

/// The addresses behind a node are written last, and only if asked for.
pub proof fn law_fingerprints_are_written_if_asked_for(f: &Function, n: NodeId)
    ensures
        fingerprint_text(f, n, false).len() == 0,
        f.tables().fingerprint(n).len() == 0 ==> fingerprint_text(f, n, true).len() == 0,
        f.tables().fingerprint(n).len() > 0 ==> fingerprint_text(f, n, true) == "  @{"@
            + addrs_joined(f.tables().fingerprint(n)) + "}"@,
{
}

/// The varnode that a value stands for is written behind it.
pub proof fn law_tags(f: &Function, v: ValueId)
    ensures
        f.tables().vn_of(v) is None ==> tag_text(f, v).len() == 0,
        f.tables().vn_of(v) matches Some(id) ==> tag_text(f, v) == (if id.0 < f.vns().len() {
            "<"@ + vn_text(f.vns()[id.0 as int]) + ">"@
        } else {
            "<?>"@
        }),
{
}

/// How many outputs the first `k` nodes of an order have.
pub open spec fn outputs_before(g: GraphModel, order: Seq<NodeId>, k: int) -> nat
    decreases k,
{
    if k <= 0 {
        0
    } else {
        outputs_before(g, order, k - 1) + g.outs(order[k - 1]).len()
    }
}

proof fn lemma_printed(g: GraphModel, order: Seq<NodeId>, k: int)
    requires
        0 <= k <= order.len(),
    ensures
        printed(g, order.take(k)).len() == outputs_before(g, order, k),
        k < order.len() ==> printed(g, order.take(k + 1)) == printed(g, order.take(k)) + g.outs(
            order[k],
        ),
    decreases k,
{
    if k < order.len() {
        assert(order.take(k + 1).drop_last() =~= order.take(k));
    }
    if k > 0 {
        lemma_printed(g, order, k - 1);
    } else {
        assert(order.take(0) =~= Seq::empty());
    }
}

proof fn lemma_printed_prefix(g: GraphModel, order: Seq<NodeId>, k: int, m: int)
    requires
        0 <= k <= m <= order.len(),
    ensures
        printed(g, order.take(k)).len() <= printed(g, order.take(m)).len(),
        forall|x: int|
            0 <= x < printed(g, order.take(k)).len() ==> #[trigger] printed(g, order.take(m))[x]
                == printed(g, order.take(k))[x],
    decreases m - k,
{
    if k < m {
        lemma_printed_prefix(g, order, k, m - 1);
        lemma_printed(g, order, m - 1);
    }
}

proof fn lemma_printed_is_output(g: GraphModel, order: Seq<NodeId>, x: int) -> (r: (int, int))
    requires
        0 <= x < printed(g, order).len(),
    ensures
        0 <= r.0 < order.len(),
        0 <= r.1 < g.outs(order[r.0]).len(),
        x == outputs_before(g, order, r.0) + r.1,
        printed(g, order)[x] == g.outs(order[r.0])[r.1],
    decreases order.len(),
{
    let rest = order.drop_last();
    assert(rest =~= order.take(order.len() - 1));
    assert(order.take(order.len() as int) =~= order);
    lemma_printed(g, order, order.len() - 1);
    if x < printed(g, rest).len() {
        let r = lemma_printed_is_output(g, rest, x);
        lemma_same_before(g, order, r.0);
        r
    } else {
        (order.len() - 1, x - printed(g, rest).len())
    }
}

proof fn lemma_same_before(g: GraphModel, order: Seq<NodeId>, k: int)
    requires
        0 <= k < order.len(),
    ensures
        outputs_before(g, order.drop_last(), k) == outputs_before(g, order, k),
    decreases k,
{
    if k > 0 {
        lemma_same_before(g, order, k - 1);
        assert(order.drop_last()[k - 1] == order[k - 1]);
    }
}

/// Values are numbered from zero in the order in which they are printed: an
/// output of a node comes after all outputs of the nodes before it and after
/// the node's own earlier ones.
pub proof fn law_values_are_numbered_as_printed(
    g: GraphModel,
    order: Seq<NodeId>,
    k: int,
    j: int,
)
    requires
        g.valid(),
        order.no_duplicates(),
        forall|i: int| 0 <= i < order.len() ==> g.has_node(#[trigger] order[i]),
        0 <= k < order.len(),
        0 <= j < g.outs(order[k]).len(),
    ensures
        value_number(g, order, g.outs(order[k])[j]) == Some(
            (outputs_before(g, order, k) + j) as nat,
        ),
        value_name(g, order, g.outs(order[k])[j]) == "%v"@ + dec(
            (outputs_before(g, order, k) + j) as nat,
        ),
{
    let v = g.outs(order[k])[j];
    let x = (outputs_before(g, order, k) + j) as int;
    let all = printed(g, order);
    assert(order.take(order.len() as int) =~= order);
    lemma_printed(g, order, k);
    lemma_printed_prefix(g, order, k + 1, order.len() as int);
    assert(printed(g, order.take(k + 1))[x] == v);
    assert(all[x] == v);
    assert(all.contains(v));
    let y = all.index_of(v);
    let (a, b) = lemma_printed_is_output(g, order, y);
    assert(g.has_node(order[a]) && g.has_node(order[k]));
    assert(g.nodes[order[a].0 as int].outputs[b] == v && g.output_ok(order[a].0 as int, b));
    assert(g.nodes[order[k].0 as int].outputs[j] == v && g.output_ok(order[k].0 as int, j));
    assert(order[a] == order[k]);
    assert(a == k);
}

/// A line for an argument gives its number and the values that carry it, by
/// number; there is none where no printed value does.
pub proof fn law_argument_lines(f: &Function, order: Seq<NodeId>, class: ArgClass, index: u32)
    ensures
        ({
            let ns = numbers_of(f.g(), order, f.tables().carriers(class, index));
            &&& ns.len() == 0 ==> arg_line(f, order, "arg"@, class, index as nat).len() == 0
            &&& ns.len() == 1 ==> arg_line(f, order, "arg"@, class, index as nat) == "arg"@ + " "@
                + dec(index as nat) + " ["@ + ("%v"@ + dec(ns[0] as nat)) + "]\n"@
            &&& ns.len() == 2 ==> numbers_joined(ns) == "%v"@ + dec(ns[0] as nat) + ", "@ + ("%v"@
                + dec(ns[1] as nat))
        }),
{
    reveal_with_fuel(numbers_joined, 3);
    let ns = numbers_of(f.g(), order, f.tables().carriers(class, index));
    assert(index as nat as u32 == index);
    if ns.len() == 2 {
        assert(ns.drop_last() =~= seq![ns[0]]);
    }
}

/// A text: its head, the integer arguments, the float arguments, and a line for
/// each node in order.
pub proof fn law_text_parts(f: &Function, order: Seq<NodeId>, n: NodeId, fingerprints: bool)
    ensures
        function_text(f, order, fingerprints) == header_text(f) + arg_lines(
            f,
            order,
            "arg"@,
            ArgClass::Integer,
            0x1_0000_0000,
        ) + arg_lines(f, order, "float_arg"@, ArgClass::Float, 0x1_0000_0000) + lines_text(
            f,
            order,
            fingerprints,
            order.len() as int,
        ),
        lines_text(f, order, fingerprints, 0).len() == 0,
        order.len() > 0 ==> lines_text(f, order, fingerprints, order.len() as int) == lines_text(
            f,
            order,
            fingerprints,
            order.len() - 1,
        ) + line_text(f, order, order.last(), fingerprints),
{
}

/// Lines for arguments come by number.
pub proof fn law_argument_lines_by_number(
    f: &Function,
    order: Seq<NodeId>,
    label: Seq<char>,
    class: ArgClass,
    k: nat,
)
    ensures
        arg_lines(f, order, label, class, 0).len() == 0,
        arg_lines(f, order, label, class, k + 1) == arg_lines(f, order, label, class, k) + arg_line(
            f,
            order,
            label,
            class,
            k,
        ),
{
}

/// Varnodes are listed in order between brackets, with commas between them.
pub proof fn law_varnode_lists(vns: Seq<Vn>, vn: Vn)
    ensures
        vn_list_text(Seq::empty()) == "["@ + "]"@,
        vn_list_text(seq![vn]) == "["@ + vn_text(vn) + "]"@,
        vns.len() > 0 ==> vn_list_text(vns.push(vn)) == "["@ + (vns_joined(vns) + ", "@ + vn_text(vn))
            + "]"@,
        vn_list_text(vns) == "["@ + vns_joined(vns) + "]"@,
{
    assert(vns.push(vn).drop_last() =~= vns);
    assert("["@ + Seq::<char>::empty() + "]"@ =~= "["@ + "]"@);
}

/// The convention of a function is written field by field: a blank, the name,
/// an equals sign and what the field holds.
pub proof fn law_convention_is_written_field_by_field(cc: CcModel, k: int)
    requires
        0 <= k < 12,
    ensures
        all_fields_text(cc_field_texts(cc), 0).len() == 0,
        all_fields_text(cc_field_texts(cc), k + 1) == all_fields_text(cc_field_texts(cc), k) + " "@
            + cc_field_texts(cc)[k].0 + "="@ + cc_field_texts(cc)[k].1,
{
}

/// A call whose convention differs from that of the function in one field says
/// that field and what it holds.
pub proof fn law_call_says_where_it_differs(f: &Function, n: NodeId, id: u32, k: int)
    requires
        f.g().kind(n) == (NodeKind::Call { cc: Some(crate::node::CcId(id)) }),
        id < f.ccs().len(),
        0 <= k < 12,
        cc_field_texts(f.ccs()[id as int])[k].1 != cc_field_texts(f.cc_default()@)[k].1,
        forall|i: int|
            0 <= i < 12 && i != k ==> (#[trigger] cc_field_texts(f.ccs()[id as int])[i]).1
                == cc_field_texts(f.cc_default()@)[i].1,
    ensures
        payload(f, n) == Some(
            cc_field_texts(f.ccs()[id as int])[k].0 + "="@ + cc_field_texts(f.ccs()[id as int])[k].1,
        ),
{
    lemma_one_difference(cc_field_texts(f.ccs()[id as int]), cc_field_texts(f.cc_default()@), k, 12);
}

proof fn lemma_one_difference(
    a: Seq<(Seq<char>, Seq<char>)>,
    b: Seq<(Seq<char>, Seq<char>)>,
    k: int,
    n: int,
)
    requires
        0 <= k,
        0 <= n <= 12,
        a[k].1 != b[k].1,
        forall|i: int| 0 <= i < 12 && i != k ==> (#[trigger] a[i]).1 == b[i].1,
    ensures
        n <= k ==> differing_text(a, b, n) == Seq::<char>::empty() && !some_differ(a, b, n),
        n > k ==> differing_text(a, b, n) == a[k].0 + "="@ + a[k].1,
    decreases n,
{
    if n > 0 {
        lemma_one_difference(a, b, k, n - 1);
        if n - 1 == k {
            assert(Seq::<char>::empty() + Seq::<char>::empty() + a[k].0 + "="@ + a[k].1 =~= a[k].0
                + "="@ + a[k].1);
        } else {
            assert(a[n - 1].1 == b[n - 1].1);
        }
    }
}

} // verus!
