//! Which registers a call returns values in, which it overwrites and which it
//! leaves alone.

use super::cc::{clobbers, container, encloses, is_container, lemma_container_unique, ret_vals};
use crate::target::{BuiltCallingConvention, Vn};
use vstd::prelude::*;

verus! {

proof fn lemma_filter_is_thinning(s: Seq<Vn>, p: spec_fn(Vn) -> bool) -> (at: Seq<int>)
    ensures
        at.len() == s.filter(p).len(),
        forall|i: int|
            0 <= i < at.len() ==> 0 <= #[trigger] at[i] < s.len() && s[at[i]] == s.filter(p)[i]
                && p(s[at[i]]),
        forall|i: int, j: int| 0 <= i < j < at.len() ==> at[i] < at[j],
        forall|k: int| 0 <= k < s.len() && p(#[trigger] s[k]) ==> at.contains(k),
    decreases s.len(),
{
    reveal(Seq::filter);
    if s.len() == 0 {
        Seq::empty()
    } else {
        let rest = s.drop_last();
        let before = lemma_filter_is_thinning(rest, p);
        let at = if p(s.last()) {
            before.push(s.len() - 1)
        } else {
            before
        };
        assert forall|i: int| 0 <= i < at.len() implies 0 <= #[trigger] at[i] < s.len() && s[at[i]]
            == s.filter(p)[i] && p(s[at[i]]) by {
            if i < before.len() {
                assert(at[i] == before[i]);
                assert(rest[before[i]] == rest.filter(p)[i]);
            }
        }
        assert forall|k: int| 0 <= k < s.len() && p(#[trigger] s[k]) implies at.contains(k) by {
            if k < s.len() - 1 {
                assert(rest[k] == s[k]);
                assert(before.contains(k));
                let x = before.index_of(k);
                assert(at[x] == k);
            } else {
                assert(at[before.len() as int] == k);
            }
        }
        at
    }
}

proof fn lemma_filter_holds(s: Seq<Vn>, p: spec_fn(Vn) -> bool, v: Vn)
    ensures
        s.filter(p).contains(v) <==> s.contains(v) && p(v),
{
    let at = lemma_filter_is_thinning(s, p);
    if s.filter(p).contains(v) {
        let i = s.filter(p).index_of(v);
        assert(s[at[i]] == v);
    }
    if s.contains(v) && p(v) {
        let k = s.index_of(v);
        assert(at.contains(k));
        let i = at.index_of(k);
        assert(s.filter(p)[i] == v);
    }
}

/// `v` is where one of the registers is kept.
pub open spec fn holds_one_of(vns: Seq<Vn>, regs: Seq<Vn>, v: Vn) -> bool {
    exists|i: int| 0 <= i < regs.len() && container(vns, #[trigger] regs[i]) == v
}

proof fn lemma_containers(vns: Seq<Vn>, regs: Seq<Vn>, v: Vn)
    ensures
        super::cc::containers(vns, regs).contains(v) <==> holds_one_of(vns, regs, v),
{
    let all = super::cc::containers(vns, regs);
    if all.contains(v) {
        let i = all.index_of(v);
        assert(container(vns, regs[i]) == v);
    }
    if holds_one_of(vns, regs, v) {
        let i = choose|i: int| 0 <= i < regs.len() && container(vns, #[trigger] regs[i]) == v;
        assert(all[i] == v);
    }
}

proof fn lemma_concat_holds(vns: Seq<Vn>, a: Seq<Vn>, b: Seq<Vn>, v: Vn)
    ensures
        holds_one_of(vns, a + b, v) <==> holds_one_of(vns, a, v) || holds_one_of(vns, b, v),
{
    if holds_one_of(vns, a + b, v) {
        let i = choose|i: int| 0 <= i < (a + b).len() && container(vns, #[trigger] (a + b)[i]) == v;
        if i < a.len() {
            assert(container(vns, a[i]) == v);
        } else {
            assert(container(vns, b[i - a.len()]) == v);
        }
    }
    if holds_one_of(vns, a, v) {
        let i = choose|i: int| 0 <= i < a.len() && container(vns, #[trigger] a[i]) == v;
        assert((a + b)[i] == a[i]);
    }
    if holds_one_of(vns, b, v) {
        let i = choose|i: int| 0 <= i < b.len() && container(vns, #[trigger] b[i]) == v;
        assert((a + b)[a.len() + i] == b[i]);
    }
}

/// What the callee saves survives a call: the register that a callee-saved one
/// is kept in is neither overwritten nor returned in. Nor is the stack pointer.
pub proof fn law_callee_saved_registers_survive(
    vns: Seq<Vn>,
    cc: &BuiltCallingConvention,
    stack_vn: Vn,
    i: int,
)
    requires
        0 <= i < cc.callee_saved_regs@.len(),
    ensures
        !clobbers(vns, cc, stack_vn).contains(container(vns, cc.callee_saved_regs@[i])),
        !ret_vals(vns, cc, stack_vn).contains(container(vns, cc.callee_saved_regs@[i])),
        !clobbers(vns, cc, stack_vn).contains(stack_vn),
        !ret_vals(vns, cc, stack_vn).contains(stack_vn),
{
    let saved = container(vns, cc.callee_saved_regs@[i]);
    law_registers_of_a_call(vns, cc, stack_vn, saved);
    law_registers_of_a_call(vns, cc, stack_vn, stack_vn);
}

/// A tracked register is left alone by a call exactly if it is the stack
/// pointer or keeps a callee-saved register. Of the others, those that keep a
/// return register, of the integer or the float ones, are returned in, and all
/// others are overwritten.
pub proof fn law_registers_of_a_call(
    vns: Seq<Vn>,
    cc: &BuiltCallingConvention,
    stack_vn: Vn,
    v: Vn,
)
    ensures
        ret_vals(vns, cc, stack_vn).contains(v) <==> {
            &&& vns.contains(v)
            &&& v != stack_vn
            &&& !(exists|i: int|
                0 <= i < cc.callee_saved_regs@.len() && container(
                    vns,
                    #[trigger] cc.callee_saved_regs@[i],
                ) == v)
            &&& (exists|i: int|
                0 <= i < cc.ret_val_regs@.len() && container(vns, #[trigger] cc.ret_val_regs@[i])
                    == v) || (exists|i: int|
                0 <= i < cc.ret_val_regs_float@.len() && container(
                    vns,
                    #[trigger] cc.ret_val_regs_float@[i],
                ) == v)
        },
        clobbers(vns, cc, stack_vn).contains(v) <==> {
            &&& vns.contains(v)
            &&& v != stack_vn
            &&& !(exists|i: int|
                0 <= i < cc.callee_saved_regs@.len() && container(
                    vns,
                    #[trigger] cc.callee_saved_regs@[i],
                ) == v)
            &&& !(exists|i: int|
                0 <= i < cc.ret_val_regs@.len() && container(vns, #[trigger] cc.ret_val_regs@[i])
                    == v)
            &&& !(exists|i: int|
                0 <= i < cc.ret_val_regs_float@.len() && container(
                    vns,
                    #[trigger] cc.ret_val_regs_float@[i],
                ) == v)
        },
{
    let ret = super::cc::ret_regs(cc);
    let all = super::cc::containers(vns, ret);
    lemma_filter_holds(
        all,
        |c: Vn| vns.contains(c) && super::cc::clobbered(vns, cc, stack_vn, c),
        v,
    );
    lemma_filter_holds(
        vns,
        |x: Vn| super::cc::clobbered(vns, cc, stack_vn, x) && !all.contains(x),
        v,
    );
    lemma_containers(vns, cc.callee_saved_regs@, v);
    lemma_containers(vns, ret, v);
    lemma_concat_holds(vns, cc.ret_val_regs@, cc.ret_val_regs_float@, v);
    assert(holds_one_of(vns, cc.callee_saved_regs@, v) <==> exists|i: int|
        0 <= i < cc.callee_saved_regs@.len() && container(vns, #[trigger] cc.callee_saved_regs@[i])
            == v);
}

/// The registers that a call overwrites come in the order in which they are
/// tracked, those it returns values in in the order of the convention: where
/// the integer ones are kept, then where the float ones are.
pub proof fn law_registers_of_a_call_in_order(
    vns: Seq<Vn>,
    cc: &BuiltCallingConvention,
    stack_vn: Vn,
    ints: Seq<Vn>,
    floats: Seq<Vn>,
)
    requires
        ints.len() == cc.ret_val_regs@.len(),
        forall|i: int|
            0 <= i < ints.len() ==> #[trigger] ints[i] == container(vns, cc.ret_val_regs@[i]),
        floats.len() == cc.ret_val_regs_float@.len(),
        forall|i: int|
            0 <= i < floats.len() ==> #[trigger] floats[i] == container(
                vns,
                cc.ret_val_regs_float@[i],
            ),
    ensures
        exists|at: Seq<int>| picked_from(clobbers(vns, cc, stack_vn), vns, at),
        exists|at: Seq<int>| picked_from(ret_vals(vns, cc, stack_vn), ints + floats, at),
{
    let all = super::cc::containers(vns, super::cc::ret_regs(cc));
    let a = lemma_filter_is_thinning(
        vns,
        |x: Vn| super::cc::clobbered(vns, cc, stack_vn, x) && !all.contains(x),
    );
    assert(picked_from(clobbers(vns, cc, stack_vn), vns, a));
    let b = lemma_filter_is_thinning(
        all,
        |c: Vn| vns.contains(c) && super::cc::clobbered(vns, cc, stack_vn, c),
    );
    assert(all =~= ints + floats);
    assert(picked_from(ret_vals(vns, cc, stack_vn), ints + floats, b));
}

/// A list holds what stands at some places of another, in order.
pub open spec fn picked_from(list: Seq<Vn>, from: Seq<Vn>, at: Seq<int>) -> bool {
    &&& at.len() == list.len()
    &&& forall|i: int|
        0 <= i < at.len() ==> 0 <= #[trigger] at[i] < from.len() && list[i] == from[at[i]]
    &&& forall|i: int, j: int| 0 <= i < j < at.len() ==> at[i] < at[j]
}

// -- containers -------------------------------------------------------------------
/// Some varnode covers another.
spec fn covered(vns: Seq<Vn>, vn: Vn) -> bool {
    exists|i: int| 0 <= i < vns.len() && encloses(#[trigger] vns[i], vn)
}

/// The place of the largest varnode that covers another, the first of equal
/// ones.
proof fn lemma_largest(vns: Seq<Vn>, vn: Vn) -> (at: int)
    requires
        covered(vns, vn),
    ensures
        0 <= at < vns.len(),
        encloses(vns[at], vn),
        forall|j: int|
            0 <= j < vns.len() && encloses(#[trigger] vns[j], vn) ==> vns[j].size <= vns[at].size
                && (j < at ==> vns[j].size < vns[at].size),
    decreases vns.len(),
{
    let rest = vns.drop_last();
    let last = vns.len() - 1;
    if covered(rest, vn) {
        let before = lemma_largest(rest, vn);
        assert(rest[before] == vns[before]);
        let at = if encloses(vns[last], vn) && vns[before].size < vns[last].size {
            last
        } else {
            before
        };
        assert forall|j: int| 0 <= j < vns.len() && encloses(#[trigger] vns[j], vn) implies vns[j].size
            <= vns[at].size && (j < at ==> vns[j].size < vns[at].size) by {
            if j < last {
                assert(rest[j] == vns[j]);
            }
        }
        at
    } else {
        let i = choose|i: int| 0 <= i < vns.len() && encloses(#[trigger] vns[i], vn);
        assert(i == last) by {
            if i < last {
                assert(rest[i] == vns[i]);
            }
        }
        assert forall|j: int| 0 <= j < vns.len() && encloses(#[trigger] vns[j], vn) implies j
            == last by {
            if j < last {
                assert(rest[j] == vns[j]);
            }
        }
        last
    }
}

proof fn lemma_container_is_one(vns: Seq<Vn>, vn: Vn)
    ensures
        is_container(vns, vn, container(vns, vn)),
{
    if super::cc::aliasable(vn.addr_space) && covered(vns, vn) {
        let at = lemma_largest(vns, vn);
        assert(is_container(vns, vn, vns[at]));
        lemma_container_unique(vns, vn, vns[at]);
    } else {
        assert(is_container(vns, vn, vn));
        lemma_container_unique(vns, vn, vn);
    }
}

/// A register or temporary is kept in a tracked varnode of its space that has
/// all its bytes, and no tracked one that has them is larger.
pub proof fn law_container_has_all_bytes(vns: Seq<Vn>, vn: Vn, t: Vn)
    requires
        vn.addr_space.byte() == 37 || vn.addr_space.byte() == 117,
        vns.contains(t),
        t.addr_space == vn.addr_space,
        t.addr_off <= vn.addr_off,
        vn.addr_off + vn.size <= t.addr_off + t.size <= u64::MAX,
    ensures
        ({
            let c = container(vns, vn);
            &&& vns.contains(c)
            &&& c.addr_space == vn.addr_space
            &&& c.addr_off <= vn.addr_off
            &&& vn.addr_off + vn.size <= c.addr_off + c.size
            &&& t.size <= c.size
        }),
{
    let k = vns.index_of(t);
    assert(encloses(vns[k], vn));
    lemma_container_is_one(vns, vn);
    let c = container(vns, vn);
    let i = choose|i: int|
        {
            &&& 0 <= i < vns.len()
            &&& c == #[trigger] vns[i]
            &&& encloses(c, vn)
            &&& forall|j: int|
                0 <= j < vns.len() && encloses(#[trigger] vns[j], vn) ==> vns[j].size <= c.size && (
                j < i ==> vns[j].size < c.size)
        };
    assert(vns[i] == c);
}

/// A varnode of any other space, or one that no tracked varnode reaches over,
/// is kept in itself.
pub proof fn law_container_of_an_untracked_varnode(vns: Seq<Vn>, vn: Vn)
    requires
        (vn.addr_space.byte() != 37 && vn.addr_space.byte() != 117) || forall|i: int|
            0 <= i < vns.len() ==> (#[trigger] vns[i]).addr_space != vn.addr_space || vns[i].addr_off
                > vn.addr_off,
    ensures
        container(vns, vn) == vn,
{
    lemma_container_is_one(vns, vn);
}

/// A tracked register whose bytes no larger tracked one has is kept in itself.
pub proof fn law_largest_register_keeps_itself(vns: Seq<Vn>, vn: Vn)
    requires
        vns.contains(vn),
        forall|i: int|
            0 <= i < vns.len() && #[trigger] vns[i] != vn ==> vns[i].size < vn.size,
    ensures
        container(vns, vn) == vn,
{
    lemma_container_is_one(vns, vn);
    let k = vns.index_of(vn);
    assert(encloses(vns[k], vn));
}

} // verus!
