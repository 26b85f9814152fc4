//! What the label of each kind of node says of the graph.

use super::label::{label_text, Dialect};
use super::naming::Naming;
use super::style::{bare_text, unsigned_text};
use crate::const_value::const_number;
use crate::fmt::{dec, hex};
use crate::function::func::Function;
use crate::node::{FunctionArgSource, NodeId, NodeKind, ValueKind, ValueType};
use vstd::prelude::*;

verus! {

/// Output `k` is the first that is data, and its type is `ty`.
pub open spec fn first_data_output(f: &Function, n: NodeId, k: int, ty: ValueType) -> bool {
    &&& 0 <= k < f.g().outs(n).len()
    &&& f.g().value_kind(f.g().outs(n)[k]) == ValueKind::Typed(ty)
    &&& forall|j: int|
        0 <= j < k ==> !((#[trigger] f.g().value_kind(f.g().outs(n)[j])) is Typed)
}

proof fn lemma_first_typed(f: &Function, n: NodeId, i: int, k: int, ty: ValueType)
    requires
        first_data_output(f, n, k, ty),
        0 <= i <= k,
    ensures
        f.first_typed_from(n, i) == Some(f.g().outs(n)[k]),
    decreases k - i,
{
    if i < k {
        assert(!(f.g().value_kind(f.g().outs(n)[i]) is Typed));
        lemma_first_typed(f, n, i + 1, k, ty);
    }
}

proof fn lemma_no_typed(f: &Function, n: NodeId, i: int)
    requires
        0 <= i,
        forall|j: int|
            0 <= j < f.g().outs(n).len() ==> !((#[trigger] f.g().value_kind(f.g().outs(n)[j])) is Typed),
    ensures
        f.first_typed_from(n, i) is None,
    decreases f.g().outs(n).len() - i,
{
    if i < f.g().outs(n).len() {
        assert(!(f.g().value_kind(f.g().outs(n)[i]) is Typed));
        lemma_no_typed(f, n, i + 1);
    }
}

/// A width change or conversion is labelled with its name and, on the next
/// line, the type of its input, an arrow and the type of its output.
pub proof fn law_conversions_read_from_input_to_output(
    f: &Function,
    names: &Naming,
    n: NodeId,
    k: int,
    from: ValueType,
    to: ValueType,
)
    requires
        f.g().ins(n).len() > 0,
        f.g().value_kind(f.g().ins(n)[0]) == ValueKind::Typed(from),
        first_data_output(f, n, k, to),
        ({
            let kind = f.g().kind(n);
            kind is Truncate || kind is Extend || kind is Popcount || kind is Lzcount || kind
                is IntUnaryOp || kind is FloatUnaryOp || kind is IntToFloat || kind is FloatToInt
                || kind is FloatToFloat || kind is CastToFloat || kind is IntBitsToFloat || kind
                is FloatBitsToInt
        }),
    ensures
        ({
            let kind = f.g().kind(n);
            let op = if kind is IntBitsToFloat || kind is FloatBitsToInt {
                "bitcast"@
            } else {
                bare_text(kind)
            };
            &&& label_text(Dialect::Function, f, names, n) == op + "\n"@ + from.name() + " → "@
                + to.name()
            &&& label_text(Dialect::Graph, f, names, n) == op + "\n"@ + unsigned_text(from) + " → "@
                + unsigned_text(to)
        }),
{
    lemma_first_typed(f, n, 0, k, to);
}

/// A cast to a truth value or an integer says what it casts to first, and on
/// the next line what from.
pub proof fn law_casts_say_what_they_come_from(
    f: &Function,
    names: &Naming,
    n: NodeId,
    k: int,
    from: ValueType,
    to: ValueType,
)
    requires
        f.g().ins(n).len() > 0,
        f.g().value_kind(f.g().ins(n)[0]) == ValueKind::Typed(from),
        first_data_output(f, n, k, to),
    ensures
        f.g().kind(n) is CastToBool ==> label_text(Dialect::Function, f, names, n)
            == "Cast → bool\nfrom "@ + from.name() && label_text(Dialect::Graph, f, names, n)
            == "Cast → bool\nfrom "@ + unsigned_text(from),
        f.g().kind(n) is CastToInt ==> label_text(Dialect::Function, f, names, n) == "Cast → "@
            + to.name() + "\nfrom "@ + from.name() && label_text(Dialect::Graph, f, names, n)
            == "Cast → "@ + unsigned_text(to) + "\nfrom "@ + unsigned_text(from),
{
    lemma_first_typed(f, n, 0, k, to);
}

/// A comparison reads from the type of what it compares to the truth type.
pub proof fn law_comparisons_read_to_truth(
    f: &Function,
    names: &Naming,
    n: NodeId,
    from: ValueType,
)
    requires
        f.g().ins(n).len() > 0,
        f.g().value_kind(f.g().ins(n)[0]) == ValueKind::Typed(from),
        f.g().kind(n) is IntCmpOp || f.g().kind(n) is FloatCmpOp,
    ensures
        label_text(Dialect::Function, f, names, n) == bare_text(f.g().kind(n)) + "\n"@ + from.name()
            + " → "@ + "i1"@,
        label_text(Dialect::Graph, f, names, n) == bare_text(f.g().kind(n)) + "\n"@ + unsigned_text(
            from,
        ) + " → "@ + "bool"@,
{
}

/// An operator on numbers is labelled with its name and the type of what it
/// gives, one on truth values with its name and `bool`.
pub proof fn law_operators_say_what_they_give(
    f: &Function,
    names: &Naming,
    n: NodeId,
    k: int,
    to: ValueType,
)
    requires
        first_data_output(f, n, k, to),
    ensures
        f.g().kind(n) is IntBinaryOp || f.g().kind(n) is FloatBinaryOp || f.g().kind(n) is CPoolRef
            || f.g().kind(n) is New ==> label_text(Dialect::Function, f, names, n) == bare_text(
            f.g().kind(n),
        ) + (":"@ + to.name()) && label_text(Dialect::Graph, f, names, n) == bare_text(f.g().kind(n))
            + (":"@ + unsigned_text(to)),
        f.g().kind(n) is BoolBinaryOp || f.g().kind(n) is BoolUnaryOp ==> forall|d: Dialect|
            #[trigger] label_text(d, f, names, n) == bare_text(f.g().kind(n)) + ":bool"@,
        f.g().kind(n) matches NodeKind::SegmentOp { op_id } ==> label_text(
            Dialect::Function,
            f,
            names,
            n,
        ) == "SegmentOp #"@ + dec(op_id as nat) + (":"@ + to.name()) && label_text(
            Dialect::Graph,
            f,
            names,
            n,
        ) == "SegmentOp #"@ + dec(op_id as nat) + (":"@ + unsigned_text(to)),
{
    lemma_first_typed(f, n, 0, k, to);
}

/// A load points from the space it reads and says the type it gives; a store
/// points to the space it writes and says the type of its third input. The
/// place on the stack follows, if it is known.
pub proof fn law_loads_point_from_and_stores_to(
    f: &Function,
    names: &Naming,
    n: NodeId,
    k: int,
    ty: ValueType,
)
    requires
        f.sp_offset(n) is None,
    ensures
        f.g().kind(n) matches NodeKind::Load(space) ==> (first_data_output(f, n, k, ty)
            ==> label_text(Dialect::Function, f, names, n) == "Load"@ + (" "@ + ty.name())
            + "\n← "@ + names.space_word(space) && label_text(Dialect::Graph, f, names, n)
            == "Load"@ + (" "@ + unsigned_text(ty)) + "\n← "@ + names.space_word(space)),
        f.g().kind(n) matches NodeKind::Store(space) ==> (f.g().ins(n).len() > 2
            && f.g().value_kind(f.g().ins(n)[2]) == ValueKind::Typed(ty) ==> label_text(
            Dialect::Function,
            f,
            names,
            n,
        ) == "Store"@ + (" "@ + ty.name()) + "\n→ "@ + names.space_word(space) && label_text(
            Dialect::Graph,
            f,
            names,
            n,
        ) == "Store"@ + (" "@ + unsigned_text(ty)) + "\n→ "@ + names.space_word(space)),
{
    reveal_strlit("");
    if f.g().kind(n) is Load && first_data_output(f, n, k, ty) {
        lemma_first_typed(f, n, 0, k, ty);
    }
    assert(label_text(Dialect::Function, f, names, n) + ""@ =~= label_text(
        Dialect::Function,
        f,
        names,
        n,
    ));
    if let NodeKind::Load(space) = f.g().kind(n) {
        if first_data_output(f, n, k, ty) {
            let x = "Load"@ + (" "@ + ty.name()) + "\n← "@ + names.space_word(space);
            let y = "Load"@ + (" "@ + unsigned_text(ty)) + "\n← "@ + names.space_word(space);
            assert(x + ""@ =~= x);
            assert(y + ""@ =~= y);
        }
    }
    if let NodeKind::Store(space) = f.g().kind(n) {
        let x = "Store"@ + (" "@ + ty.name()) + "\n→ "@ + names.space_word(space);
        let y = "Store"@ + (" "@ + unsigned_text(ty)) + "\n→ "@ + names.space_word(space);
        assert(x + ""@ =~= x);
        assert(y + ""@ =~= y);
    }
}

/// A load or store whose place on the stack is known says it last: the sign and
/// the distance from the stack pointer.
pub proof fn law_stack_accesses_say_where(f: &Function, names: &Naming, n: NodeId)
    requires
        f.g().kind(n) is Load || f.g().kind(n) is Store,
    ensures
        f.sp_offset(n) matches Some((_, o)) ==> {
            let there = label_text(Dialect::Function, f, names, n);
            let here = label_text(Dialect::Graph, f, names, n);
            &&& o >= 0 ==> ends_with(there, "\nbase sp + "@ + dec(o as nat))
            &&& o < 0 ==> ends_with(there, "\nbase sp - "@ + dec((-o) as nat))
            &&& o >= 0 ==> ends_with(here, "[sp+"@ + dec(o as nat) + "]"@)
            &&& o < 0 ==> ends_with(here, "[sp-"@ + dec((-o) as nat) + "]"@)
        },
{
    reveal_strlit("\nbase sp");
    reveal_strlit(" + ");
    reveal_strlit(" - ");
    reveal_strlit("\nbase sp + ");
    reveal_strlit("\nbase sp - ");
    if let Some((_, o)) = f.sp_offset(n) {
        let there = label_text(Dialect::Function, f, names, n);
        let here = label_text(Dialect::Graph, f, names, n);
        let place = super::label::place_text(Dialect::Function, f, n);
        let spot = super::label::place_text(Dialect::Graph, f, n);
        if o >= 0 {
            assert(place =~= "\nbase sp + "@ + dec(o as nat));
        } else {
            assert(place =~= "\nbase sp - "@ + dec((-o) as nat));
        }
        assert(there.skip(there.len() - place.len()) =~= place);
        assert(here.skip(here.len() - spot.len()) =~= spot);
    }
}

/// A text ends in another.
pub open spec fn ends_with(text: Seq<char>, end: Seq<char>) -> bool {
    end.len() <= text.len() && text.skip(text.len() - end.len()) == end
}

/// A store to a fixed place on the stack says its type, its space and the
/// distance from the stack pointer.
pub proof fn law_stack_stores_say_where(f: &Function, names: &Naming, n: NodeId, ty: ValueType)
    requires
        f.g().ins(n).len() > 2,
        f.g().value_kind(f.g().ins(n)[2]) == ValueKind::Typed(ty),
    ensures
        f.g().kind(n) matches NodeKind::StackStore { space, offset } ==> label_text(
            Dialect::Function,
            f,
            names,
            n,
        ) == "StackStore"@ + (" "@ + ty.name()) + "\n→ "@ + names.space_word(space) + "[sp"@ + (
        if offset < 0 {
            " - "@ + dec((-offset) as nat)
        } else {
            " + "@ + dec(offset as nat)
        }) + "]"@,
        f.g().kind(n) matches NodeKind::StackStorePhi { space } ==> (f.tables().phi_offsets_of(
            n,
        ).len() == 0 ==> label_text(Dialect::Function, f, names, n) == "φ StackStore"@ + (" "@
            + ty.name()) + "\n→ "@ + names.space_word(space) + "["@ + "?"@ + "]"@),
{
}

/// An integer constant shows its number in hexadecimal and its type; one too
/// wide for its type to be narrow shows the width of an integer.
pub proof fn law_integer_constants_show_their_number(
    f: &Function,
    names: &Naming,
    n: NodeId,
    k: int,
    ty: ValueType,
)
    requires
        first_data_output(f, n, k, ty),
    ensures
        f.g().kind(n) matches NodeKind::IntConst(id) ==> (id.0 < f.consts().len() ==> {
            let number = const_number(f.consts()[id.0 as int]);
            &&& ty.width() <= 128 && number <= u128::MAX ==> label_text(
                Dialect::Function,
                f,
                names,
                n,
            ) == "const "@ + ("0x"@ + hex(number)) + ":"@ + ty.name()
            &&& ty.width() <= 128 && number <= u128::MAX ==> label_text(Dialect::Graph, f, names, n)
                == "const "@ + ("0x"@ + hex(number)) + ":"@ + unsigned_text(ty)
            &&& ty.width() > 128 ==> forall|d: Dialect| #[trigger]
                label_text(d, f, names, n) == "const "@ + ("0x"@ + hex(number)) + ":i"@ + dec(
                    ty.width(),
                )
        }),
        f.g().kind(n) matches NodeKind::IntConst(id) ==> (id.0 >= f.consts().len() ==> forall|
            d: Dialect,
        | #[trigger]
            label_text(d, f, names, n) == "const <dangling const ConstId("@ + dec(id.0 as nat)
                + ")>"@),
{
    lemma_first_typed(f, n, 0, k, ty);
}

/// A float constant shows its bits where no text is known for it; the narrow
/// one is read from its low half.
pub proof fn law_float_constants_show_what_is_known(
    f: &Function,
    names: &Naming,
    n: NodeId,
    k: int,
    ty: ValueType,
    d: Dialect,
)
    requires
        first_data_output(f, n, k, ty),
    ensures
        f.g().kind(n) matches NodeKind::FloatConst(bits) ==> {
            let label = label_text(d, f, names, n);
            &&& ty is F32 ==> label == "const "@ + (match names.float(true, bits & 0xffff_ffff) {
                Some(text) => text,
                None => "0x"@ + hex((bits & 0xffff_ffff) as nat),
            }) + ":f32"@
            &&& ty is F64 ==> label == "const "@ + (match names.float(false, bits) {
                Some(text) => text,
                None => "0x"@ + hex(bits as nat),
            }) + ":f64"@
            &&& ty is F80 ==> label == "const "@ + ("0x"@ + hex(bits as nat)) + ":"@ + "f80"@
            &&& (ty is F16 || ty is F128) && d is Function ==> label == "const "@ + ("0x"@ + hex(
                bits as nat,
            )) + ":"@ + ty.name()
        },
{
    lemma_first_typed(f, n, 0, k, ty);
}

/// Truth constants, arguments, what a register starts with, phis and switches.
pub proof fn law_sources_say_where_they_come_from(
    f: &Function,
    names: &Naming,
    n: NodeId,
    d: Dialect,
)
    ensures
        f.g().kind(n) matches NodeKind::BoolConst(b) ==> label_text(d, f, names, n) == "const "@ + (
        if b {
            "true"@
        } else {
            "false"@
        }),
        f.g().kind(n) matches NodeKind::FunctionArg { source, index } ==> label_text(d, f, names, n)
            == "arg["@ + dec(index as nat) + "] ← "@ + (match source {
            FunctionArgSource::Register(reg) => names.vn_name(reg),
            FunctionArgSource::Stack { space, offset } => names.space_word(space) + "[sp"@ + (
            if offset < 0 {
                " - "@ + dec((-offset) as nat)
            } else {
                " + "@ + dec(offset as nat)
            }) + "]"@,
        }),
        f.g().kind(n) matches NodeKind::InitialVar(id) ==> label_text(d, f, names, n) == (
        if id.0 < f.vns().len() {
            "init\n"@ + names.vn_name(f.vns()[id.0 as int])
        } else {
            "init\n#"@ + dec(id.0 as nat)
        }),
        f.g().kind(n) is MemPhi ==> label_text(d, f, names, n) == "φ Mem"@,
        f.g().kind(n) is Phi ==> label_text(d, f, names, n) == (if f.g().outs(n).len() > 0
            && f.vn_for(f.g().outs(n)[0]) is Some {
            "φ "@ + names.vn_name(f.vn_for(f.g().outs(n)[0])->0)
        } else {
            "φ Val"@
        }),
        f.g().kind(n) is Switch && f.cases(n).len() == 0 ==> label_text(d, f, names, n) == "Switch"@,
        f.g().kind(n) is Switch && f.cases(n).len() > 0 ==> ends_with(
            label_text(d, f, names, n),
            "\n0x"@ + hex(f.cases(n).last() as nat),
        ),
{
    if let NodeKind::FunctionArg { source, index } = f.g().kind(n) {
        if let FunctionArgSource::Stack { space, offset } = source {
            let sign = if offset < 0 {
                " - "@ + dec((-offset) as nat)
            } else {
                " + "@ + dec(offset as nat)
            };
            let head = "arg["@ + dec(index as nat) + "] ← "@;
            assert(head + names.space_word(space) + "[sp"@ + sign + "]"@ =~= head + (
            names.space_word(space) + "[sp"@ + sign + "]"@));
        }
    }
    if f.g().kind(n) is Switch && f.cases(n).len() > 0 {
        let label = label_text(d, f, names, n);
        let end = "\n0x"@ + hex(f.cases(n).last() as nat);
        let rest = super::label::cases_text(f.cases(n), f.cases(n).len() - 1);
        assert(label =~= rest + end);
        assert(label.skip(label.len() - end.len()) =~= end);
    }
}

/// A user operation shows its name, if it has one, and its number, and what it
/// gives.
pub proof fn law_user_operations_show_name_and_number(
    f: &Function,
    names: &Naming,
    n: NodeId,
)
    requires
        forall|j: int|
            0 <= j < f.g().outs(n).len() ==> !((#[trigger] f.g().value_kind(f.g().outs(n)[j])) is Typed),
    ensures
        f.g().kind(n) matches NodeKind::CallOther { user_op_id } ==> forall|d: Dialect| #[trigger]
            label_text(d, f, names, n) == (match f.user_op_name(n) {
                Some(name) => "CallOther "@ + name + " #"@,
                None => "CallOther #"@,
            }) + dec(user_op_id as nat),
{
    reveal_strlit("");
    lemma_no_typed(f, n, 0);
    if let NodeKind::CallOther { user_op_id } = f.g().kind(n) {
        let head = match f.user_op_name(n) {
            Some(name) => "CallOther "@ + name + " #"@,
            None => "CallOther #"@,
        };
        assert(head + dec(user_op_id as nat) + ""@ =~= head + dec(user_op_id as nat));
    }
}

/// Every other node is labelled with its bare name.
pub proof fn law_plain_nodes_show_their_name(f: &Function, names: &Naming, n: NodeId, d: Dialect)
    ensures
        f.g().kind(n) is Entry ==> label_text(d, f, names, n) == "Entry"@,
        f.g().kind(n) is InitialMemory ==> label_text(d, f, names, n) == "InitialMemory"@,
        f.g().kind(n) is Region ==> label_text(d, f, names, n) == "Region"@,
        f.g().kind(n) is ControlState ==> label_text(d, f, names, n) == "ControlState"@,
        f.g().kind(n) is If ==> label_text(d, f, names, n) == "If"@,
        f.g().kind(n) is Call ==> label_text(d, f, names, n) == "Call"@,
        f.g().kind(n) is Return ==> label_text(d, f, names, n) == "Return"@,
        f.g().kind(n) is IndirectBranch ==> label_text(d, f, names, n) == "IndirectBranch"@,
        f.g().kind(n) is Unreachable ==> label_text(d, f, names, n) == "Unreachable"@,
        f.g().kind(n) is MemProject ==> label_text(d, f, names, n) == "MemProject"@,
        f.g().kind(n) is MemUnion ==> label_text(d, f, names, n) == "MemUnion"@,
{
}

} // verus!
