//! What a function says of its nodes, where more than one place could say it,
//! and what its constants and varnodes amount to.

use super::func::{compacted, compaction_of, stored_limbs, vn_before, Function};
use super::side_tables::{kept_place, kept_slot, kept_values, remapped, MemPlace, SideTables};
use crate::const_value::{const_number, limbs_value, ConstModel};
use crate::graph::compact::{wrapping_next, NodeIdRemap};
use crate::graph::model::GraphModel;
use crate::interner::{interned, interned_all, MemSlot};
use crate::node::{InitialVnId, NodeId, NodeKind, ValueId, ValueType};
use crate::target::Vn;
use vstd::arithmetic::power2::pow2;
use vstd::prelude::*;

verus! {

/// The convention of a call is the one its kind names, else the one recorded
/// for it, else that of the function.
pub proof fn law_convention_of_a_call(f: &Function, n: NodeId)
    ensures
        f.g().kind(n) matches NodeKind::Call { cc: Some(id) } ==> f.effective_cc(n)
            == f.ccs()[id.0 as int],
        f.g().kind(n) == (NodeKind::Call { cc: None }) ==> (f.tables().cc_of(n) matches Some(cc)
            ==> f.effective_cc(n) == cc),
        f.g().kind(n) == (NodeKind::Call { cc: None }) && f.tables().cc_of(n) is None
            ==> f.effective_cc(n) == f.cc_default()@,
{
}

/// The cases of a switch are those recorded for the node, else those of its
/// table; nothing else has cases unless they were recorded.
pub proof fn law_cases_of_a_switch(f: &Function, n: NodeId)
    ensures
        f.tables().targets_of(n).len() > 0 ==> f.cases(n) == f.tables().targets_of(n),
        f.tables().targets_of(n).len() == 0 ==> (f.g().kind(n) matches NodeKind::Switch(id) ==> (
        id.0 < f.switches().len() ==> f.cases(n) == f.switches()[id.0 as int])),
        f.tables().targets_of(n).len() == 0 && !(f.g().kind(n) is Switch) ==> f.cases(n).len() == 0,
{
}

/// The name of a user operation is the one recorded for the node, else the one
/// of its number; nothing else has one.
pub proof fn law_name_of_a_user_operation(f: &Function, n: NodeId)
    ensures
        f.g().kind(n) matches NodeKind::CallOther { user_op_id } ==> {
            &&& f.tables().name_of(n) is Some ==> f.user_op_name(n) == f.tables().name_of(n)
            &&& f.tables().name_of(n) is None ==> f.user_op_name(n) == f.op_name_of(user_op_id)
        },
        !(f.g().kind(n) is CallOther) ==> f.user_op_name(n) is None,
{
}

/// The stack slot of a node is the one recorded for it; a load or store without
/// one has that of its address, its second input, if that is on the stack.
pub proof fn law_stack_slot_of_a_node(f: &Function, n: NodeId)
    ensures
        f.tables().slot_of(n) matches Some(s) ==> f.sp_offset(n) == Some((s.base, s.offset)),
        f.tables().slot_of(n) is None && (f.g().kind(n) is Load || f.g().kind(n) is Store)
            && f.g().ins(n).len() > 1 ==> {
            &&& f.tables().place(f.g().ins(n)[1]) matches MemPlace::Stack(s) ==> f.sp_offset(n)
                == Some((s.base, s.offset))
            &&& !(f.tables().place(f.g().ins(n)[1]) is Stack) ==> f.sp_offset(n) is None
        },
        f.tables().slot_of(n) is None && !(f.g().kind(n) is Load) && !(f.g().kind(n) is Store)
            ==> f.sp_offset(n) is None,
{
}

/// The first data output of a node is an output of it that is data, and none
/// before it is.
pub proof fn law_first_data_output(f: &Function, n: NodeId, i: int)
    requires
        0 <= i,
    ensures
        match f.first_typed_from(n, i) {
            Some(v) => exists|k: int|
                i <= k < f.g().outs(n).len() && #[trigger] f.g().outs(n)[k] == v && f.g().value_kind(
                    v,
                ) is Typed && forall|j: int|
                    i <= j < k ==> !(f.g().value_kind(#[trigger] f.g().outs(n)[j]) is Typed),
            None => forall|j: int|
                i <= j < f.g().outs(n).len() ==> !(f.g().value_kind(#[trigger] f.g().outs(n)[j])
                    is Typed),
        },
    decreases f.g().outs(n).len() - i,
{
    if i < f.g().outs(n).len() {
        if f.g().value_kind(f.g().outs(n)[i]) is Typed {
            assert(f.g().outs(n)[i] == f.first_typed_from(n, i)->0);
        } else {
            law_first_data_output(f, n, i + 1);
            if let Some(v) = f.first_typed_from(n, i + 1) {
                let k = choose|k: int|
                    i + 1 <= k < f.g().outs(n).len() && #[trigger] f.g().outs(n)[k] == v
                        && f.g().value_kind(v) is Typed && forall|j: int|
                        i + 1 <= j < k ==> !(f.g().value_kind(#[trigger] f.g().outs(n)[j])
                            is Typed);
                assert(f.g().outs(n)[k] == v);
            }
        }
    }
}

/// A node is the initial stack pointer exactly if it is the initial value of
/// the varnode that the function's convention has the stack pointer in.
pub proof fn law_initial_stack_pointer(f: &Function, n: NodeId)
    ensures
        f.is_sp_node(n) <==> (f.g().kind(n) matches NodeKind::InitialVar(id) && id.0 < f.vns().len()
            && f.vns()[id.0 as int] == f.cc_default().stack_vn),
{
}

/// The constant of a node is what its id stands for.
pub proof fn law_constant_of_a_node(f: &Function, n: NodeId)
    ensures
        f.g().kind(n) matches NodeKind::IntConst(id) ==> (id.0 < f.consts().len() ==> f.const_of(n)
            == Some(f.consts()[id.0 as int])),
        !(f.g().kind(n) is IntConst) ==> f.const_of(n) is None,
{
}

proof fn lemma_masked(x: u128)
    ensures
        x & 0x1 == x % 0x2,
        x & 0xff == x % 0x100,
        x & 0xffff == x % 0x1_0000,
        x & 0xffff_ffff == x % 0x1_0000_0000,
        x & 0xffff_ffff_ffff_ffff == x % 0x1_0000_0000_0000_0000,
        x & 0xffff_ffff_ffff_ffff_ffff == x % 0x1_0000_0000_0000_0000_0000,
        x & 0xffff_ffff_ffff_ffff_ffff_ffff_ffff_ffff == x,
{
    assert(x & 0x1 == x % 0x2) by (bit_vector);
    assert(x & 0xff == x % 0x100) by (bit_vector);
    assert(x & 0xffff == x % 0x1_0000) by (bit_vector);
    assert(x & 0xffff_ffff == x % 0x1_0000_0000) by (bit_vector);
    assert(x & 0xffff_ffff_ffff_ffff == x % 0x1_0000_0000_0000_0000) by (bit_vector);
    assert(x & 0xffff_ffff_ffff_ffff_ffff == x % 0x1_0000_0000_0000_0000_0000) by (bit_vector);
    assert(x & 0xffff_ffff_ffff_ffff_ffff_ffff_ffff_ffff == x) by (bit_vector);
}

/// A constant is kept modulo its width, given as a number or as limbs.
pub proof fn law_constants_are_kept_modulo_their_width(
    value: u128,
    limbs: Seq<u64>,
    ty: ValueType,
)
    requires
        ty.integer(),
    ensures
        (value & ty.mask()) as nat == value as nat % pow2(ty.width()),
        const_number(ConstModel::Bits(value & ty.mask())) == value as nat % pow2(ty.width()),
        const_number(stored_limbs(limbs, ty)) == limbs_value(limbs) % pow2(ty.width()),
{
    lemma_masked(value);
    super::limbs::lemma_stored_number(limbs, ty);
    vstd::arithmetic::power2::lemma2_to64();
    vstd::arithmetic::power2::lemma2_to64_rest();
    vstd::arithmetic::power2::lemma_pow2_adds(64, 16);
    vstd::arithmetic::power2::lemma_pow2_adds(64, 64);
    assert(pow2(80) == 0x1_0000_0000_0000_0000_0000);
    assert(pow2(128) == 0x1_0000_0000_0000_0000 * 0x1_0000_0000_0000_0000);
    if ty.width() > 128 {
        vstd::arithmetic::power2::lemma_pow2_strictly_increases(128, ty.width());
    }
    if ty.width() >= 128 {
        vstd::arithmetic::div_mod::lemma_small_mod(value as nat, pow2(ty.width()));
    }
}

/// Limbs count from the lowest, each 2^64 times the one before.
pub proof fn law_limbs_count_from_the_lowest(a: u64, rest: Seq<u64>)
    ensures
        limbs_value(seq![a] + rest) == a as nat + pow2(64) * limbs_value(rest),
        limbs_value(Seq::empty()) == 0,
        const_number(ConstModel::Wide(rest)) == limbs_value(rest),
        const_number(ConstModel::Bits(a as u128)) == a as nat,
{
    vstd::arithmetic::power2::lemma2_to64();
    vstd::arithmetic::power2::lemma2_to64_rest();
    let s = seq![a] + rest;
    assert(s.skip(1) =~= rest);
    assert(pow2(64) == 0x1_0000_0000_0000_0000);
}

/// Varnodes are ordered by space, then by offset, then by size.
pub proof fn law_varnode_order(a: Vn, b: Vn)
    ensures
        vn_before(a, b) <==> a.addr_space.byte() * 0x1_0000_0000_0000_0000_0000_0000 + a.addr_off
            * 0x1_0000_0000 + a.size < b.addr_space.byte() * 0x1_0000_0000_0000_0000_0000_0000
            + b.addr_off * 0x1_0000_0000 + b.size,
        !(vn_before(a, b) && vn_before(b, a)),
        vn_before(a, b) || vn_before(b, a) || a == b,
{
    crate::target::VnSpace::lemma_of_byte();
    if a.addr_space.byte() == b.addr_space.byte() {
        assert(crate::target::VnSpace::of_byte(a.addr_space.byte()) == a.addr_space);
        assert(crate::target::VnSpace::of_byte(b.addr_space.byte()) == b.addr_space);
    }
}

/// Interning keeps what was there in its place, adds at most one, and adds
/// nothing that is there.
pub proof fn law_interning_adds_at_most_one(s: Seq<ConstModel>, x: ConstModel)
    ensures
        interned(s, x).contains(x),
        s.contains(x) ==> interned(s, x).len() == s.len(),
        !s.contains(x) ==> interned(s, x).len() == s.len() + 1 && interned(s, x).last() == x,
        forall|i: int| 0 <= i < s.len() ==> #[trigger] interned(s, x)[i] == s[i],
        interned(interned(s, x), x) == interned(s, x),
{
    if !s.contains(x) {
        assert(s.push(x)[s.len() as int] == x);
    }
}

// -- what a compaction makes of it --------------------------------------------------
/// The carriers that a compaction keeps are those whose value it keeps, under
/// the new ids, and no more than there were.
pub proof fn law_kept_carriers(vs: Seq<ValueId>, remap: &NodeIdRemap, w: ValueId)
    ensures
        kept_values(vs, remap).contains(w) <==> exists|i: int|
            0 <= i < vs.len() && remap.value(#[trigger] vs[i]) == Some(w),
        kept_values(vs, remap).len() <= vs.len(),
        (forall|i: int| 0 <= i < vs.len() ==> (remap.value(#[trigger] vs[i])) is Some)
            ==> kept_values(vs, remap).len() == vs.len() && forall|i: int|
            0 <= i < vs.len() ==> remap.value(vs[i]) == Some(#[trigger] kept_values(vs, remap)[i]),
    decreases vs.len(),
{
    if vs.len() > 0 {
        let front = vs.drop_last();
        let rest = kept_values(front, remap);
        law_kept_carriers(front, remap, w);
        let all = kept_values(vs, remap);
        if all.contains(w) {
            let x = all.index_of(w);
            if x < rest.len() {
                assert(rest[x] == w);
                assert(rest.contains(w));
                let i = choose|i: int|
                    0 <= i < front.len() && remap.value(#[trigger] front[i]) == Some(w);
                assert(vs[i] == front[i]);
            } else {
                assert(vs[vs.len() - 1] == vs.last());
            }
        }
        if exists|i: int| 0 <= i < vs.len() && remap.value(#[trigger] vs[i]) == Some(w) {
            let i = choose|i: int| 0 <= i < vs.len() && remap.value(#[trigger] vs[i]) == Some(w);
            if i < front.len() {
                assert(front[i] == vs[i]);
                let x = rest.index_of(w);
                assert(all[x] == w);
            } else {
                assert(all[rest.len() as int] == w);
            }
        }
        if forall|i: int| 0 <= i < vs.len() ==> (remap.value(#[trigger] vs[i])) is Some {
            assert forall|i: int| 0 <= i < front.len() implies (remap.value(#[trigger] front[i]))
                is Some by {
                assert(vs[i] == front[i]);
            }
            assert(vs[vs.len() - 1] == vs.last());
            assert forall|i: int| 0 <= i < vs.len() implies remap.value(vs[i]) == Some(
                #[trigger] all[i],
            ) by {
                if i < front.len() {
                    assert(front[i] == vs[i]);
                    assert(all[i] == rest[i]);
                }
            }
        }
    }
}

/// An address keeps its offset through a compaction and gets the new id of its
/// base; without its base it is not known any more.
pub proof fn law_kept_addresses(slot: MemSlot, remap: &NodeIdRemap)
    ensures
        remap.value(slot.base) matches Some(b) ==> {
            let moved = MemSlot { base: b, offset: slot.offset };
            &&& kept_place(MemPlace::Stack(slot), remap) == MemPlace::Stack(moved)
            &&& kept_place(MemPlace::Heap(slot), remap) == MemPlace::Heap(moved)
            &&& kept_slot(Some(slot), remap) == Some(moved)
        },
        remap.value(slot.base) is None ==> {
            &&& kept_place(MemPlace::Stack(slot), remap) == MemPlace::Unknown
            &&& kept_place(MemPlace::Heap(slot), remap) == MemPlace::Unknown
            &&& kept_slot(Some(slot), remap) is None
        },
        kept_place(MemPlace::NotMemory, remap) == MemPlace::NotMemory,
        kept_place(MemPlace::Unknown, remap) == MemPlace::Unknown,
        kept_slot(None, remap) is None,
{
}

/// A compaction carries what is recorded for a node over to its new id, and
/// what is recorded for a value likewise.
pub proof fn law_compaction_carries_records(
    a: &SideTables,
    b: &SideTables,
    remap: &NodeIdRemap,
    n: NodeId,
    m: NodeId,
    v: ValueId,
    w: ValueId,
)
    requires
        remapped(a, b, remap),
        remap.node(n) == Some(m),
        remap.value(v) == Some(w),
    ensures
        b.name_of(m) == a.name_of(n),
        b.fingerprint(m) == a.fingerprint(n),
        b.cc_of(m) == a.cc_of(n),
        b.targets_of(m) == a.targets_of(n),
        b.phi_offsets_of(m) == a.phi_offsets_of(n),
        b.vn_of(w) == a.vn_of(v),
        a.place(v) is NotMemory ==> b.place(w) is NotMemory,
        a.place(v) is Unknown ==> b.place(w) is Unknown,
        a.place(v) matches MemPlace::Stack(s) ==> (remap.value(s.base) matches Some(base)
            ==> b.place(w) == MemPlace::Stack(MemSlot { base, offset: s.offset })),
        a.place(v) matches MemPlace::Heap(s) ==> (remap.value(s.base) matches Some(base) ==> b.place(
            w,
        ) == MemPlace::Heap(MemSlot { base, offset: s.offset })),
        a.slot_of(n) matches Some(s) ==> (remap.value(s.base) matches Some(base) ==> b.slot_of(m)
            == Some(MemSlot { base, offset: s.offset })),
        a.slot_of(n) is None ==> b.slot_of(m) is None,
        b.escape() is None,
        forall|addr: u64| #[trigger] b.allocator(addr) == a.allocator(addr),
        forall|id: InitialVnId|
            a.initial_var(id) == Some(n) ==> #[trigger] b.initial_var(id) == Some(m),
        forall|id: InitialVnId| a.initial_var(id) is None ==> #[trigger] b.initial_var(id) is None,
{
    assert(b.name_of(m) == a.name_of(n));
    assert(b.vn_of(w) == a.vn_of(v));
}

/// A compaction leaves no record for what it dropped.
pub proof fn law_compaction_leaves_nothing_stale(
    a: &SideTables,
    b: &SideTables,
    remap: &NodeIdRemap,
    m: NodeId,
    w: ValueId,
)
    requires
        remapped(a, b, remap),
        forall|n: NodeId| #[trigger] remap.node(n) != Some(m),
        forall|v: ValueId| #[trigger] remap.value(v) != Some(w),
    ensures
        b.name_of(m) is None,
        b.fingerprint(m).len() == 0,
        b.cc_of(m) is None,
        b.targets_of(m).len() == 0,
        b.phi_offsets_of(m).len() == 0,
        b.slot_of(m) is None,
        b.vn_of(w) is None,
        b.place(w) is Unknown,
        forall|id: InitialVnId, n: NodeId|
            a.initial_var(id) == Some(n) && #[trigger] remap.node(n) is None ==> (
            #[trigger] b.initial_var(id)) is None,
{
    assert(b.name_of(m) is None);
    assert(b.vn_of(w) is None);
}

/// A compaction keeps what nodes do: their operation, and the constant, the
/// cases or the convention they name.
pub proof fn law_compaction_keeps_what_nodes_do(
    a: &Function,
    b: &Function,
    remap: &NodeIdRemap,
    n: NodeId,
    m: NodeId,
)
    requires
        compacted(a, b, remap),
        remap.node(n) == Some(m),
    ensures
        a.g().kind(n) matches NodeKind::IntConst(x) ==> (b.g().kind(m) matches NodeKind::IntConst(y)
            && b.consts()[y.0 as int] == a.consts()[x.0 as int]),
        a.g().kind(n) matches NodeKind::Switch(x) ==> (b.g().kind(m) matches NodeKind::Switch(y)
            && b.switches()[y.0 as int] == a.switches()[x.0 as int]),
        a.g().kind(n) matches NodeKind::Call { cc: Some(x) } ==> (b.g().kind(
            m,
        ) matches NodeKind::Call { cc: Some(y) } && b.ccs()[y.0 as int] == a.ccs()[x.0 as int]),
        !(a.g().kind(n) is IntConst) && !(a.g().kind(n) is Switch) && !(a.g().kind(n) is Call)
            ==> b.g().kind(m) == a.g().kind(n),
        b.g().ins(m).len() == a.g().ins(n).len(),
        b.g().outs(m).len() == a.g().outs(n).len(),
        forall|i: int|
            0 <= i < a.g().ins(n).len() ==> remap.value(#[trigger] a.g().ins(n)[i]) == Some(
                b.g().ins(m)[i],
            ),
        forall|i: int|
            0 <= i < a.g().outs(n).len() ==> remap.value(#[trigger] a.g().outs(n)[i]) == Some(
                b.g().outs(m)[i],
            ),
{
    let (order, h) = choose|order: Seq<NodeId>, h: GraphModel| #[trigger]
        compaction_of(a, b, remap, order, h);
    assert(order.contains(n));
    let k = order.index_of(n);
    assert(remap.node(order[k]) == Some(NodeId(k as u32)));
    assert(crate::graph::compact::kept_node(a.g(), h, order[k], NodeId(k as u32), remap));
    assert(h.nodes[k].inputs == b.g().nodes[k].inputs && h.nodes[k].outputs
        == b.g().nodes[k].outputs);
    assert(m == NodeId(k as u32));
}

/// The number of compactions counts up, and starts over after the last.
pub proof fn law_generations_count_up(x: u64)
    ensures
        x < u64::MAX ==> wrapping_next(x) == x + 1,
        x == u64::MAX ==> wrapping_next(x) == 0,
        wrapping_next(x) != x,
{
}

/// Tracking a list of varnodes keeps each once, in the order in which they
/// first come.
pub proof fn law_tracked_list_has_each_once(xs: Seq<Vn>, x: Vn)
    ensures
        interned_all(Seq::empty(), xs).contains(x) <==> xs.contains(x),
        interned_all(Seq::empty(), xs).no_duplicates(),
        interned_all(Seq::empty(), xs).len() <= xs.len(),
        xs.no_duplicates() ==> interned_all(Seq::empty(), xs) == xs,
    decreases xs.len(),
{
    if xs.len() > 0 {
        let front = xs.drop_last();
        let rest = interned_all(Seq::<Vn>::empty(), front);
        law_tracked_list_has_each_once(front, x);
        law_tracked_list_has_each_once(front, xs.last());
        assert(xs =~= front.push(xs.last()));
        crate::entity_set::lemma_push_member(front, xs.last(), x);
        crate::entity_set::lemma_push_member(rest, xs.last(), x);
        if xs.no_duplicates() {
            assert(front.no_duplicates()) by {
                assert forall|i: int, j: int|
                    0 <= i < front.len() && 0 <= j < front.len() && i != j implies front[i]
                    != front[j] by {
                    assert(xs[i] != xs[j]);
                }
            }
            if front.contains(xs.last()) {
                let i = front.index_of(xs.last());
                assert(xs[i] == xs[xs.len() - 1]);
            }
        }
    } else {
        assert(interned_all(Seq::empty(), xs) =~= xs);
    }
}

} // verus!
