//! Varnode containment and the register lists that a convention implies.

use crate::target::{BuiltCallingConvention, Vn, VnSpace};
use vstd::prelude::*;

verus! {

/// One past the last byte of a varnode, as far as 64 bits go.
pub open spec fn vn_end(vn: Vn) -> int {
    if vn.addr_off + vn.size > u64::MAX {
        u64::MAX as int
    } else {
        vn.addr_off + vn.size
    }
}

/// Registers and temporaries overlap by offset; other spaces do not.
pub open spec fn aliasable(space: VnSpace) -> bool {
    space.byte() == 37u8 || space.byte() == 117u8
}

/// `outer` covers all bytes of `inner`.
pub open spec fn encloses(outer: Vn, inner: Vn) -> bool {
    &&& outer.addr_space == inner.addr_space
    &&& outer.addr_off <= inner.addr_off
    &&& vn_end(outer) >= vn_end(inner)
}

/// `r` is the largest varnode of `vns` that covers `vn`, the first of equal
/// ones; `vn` itself where there is none or its space does not overlap.
pub open spec fn is_container(vns: Seq<Vn>, vn: Vn, r: Vn) -> bool {
    if aliasable(vn.addr_space) && exists|i: int|
        0 <= i < vns.len() && encloses(#[trigger] vns[i], vn) {
        exists|i: int|
            {
                &&& 0 <= i < vns.len()
                &&& r == #[trigger] vns[i]
                &&& encloses(r, vn)
                &&& forall|j: int|
                    0 <= j < vns.len() && encloses(#[trigger] vns[j], vn) ==> vns[j].size <= r.size
                        && (j < i ==> vns[j].size < r.size)
            }
    } else {
        r == vn
    }
}

/// The container of a varnode.
pub open spec fn container(vns: Seq<Vn>, vn: Vn) -> Vn {
    choose|r: Vn| is_container(vns, vn, r)
}

/// There is one container.
pub proof fn lemma_container_unique(vns: Seq<Vn>, vn: Vn, r: Vn)
    requires
        is_container(vns, vn, r),
    ensures
        container(vns, vn) == r,
{
    let c = container(vns, vn);
    assert(is_container(vns, vn, c));
    if aliasable(vn.addr_space) && exists|i: int|
        0 <= i < vns.len() && encloses(#[trigger] vns[i], vn) {
        let i = choose|i: int|
            {
                &&& 0 <= i < vns.len()
                &&& r == #[trigger] vns[i]
                &&& encloses(r, vn)
                &&& forall|j: int|
                    0 <= j < vns.len() && encloses(#[trigger] vns[j], vn) ==> vns[j].size <= r.size
                        && (j < i ==> vns[j].size < r.size)
            };
        let k = choose|k: int|
            {
                &&& 0 <= k < vns.len()
                &&& c == #[trigger] vns[k]
                &&& encloses(c, vn)
                &&& forall|j: int|
                    0 <= j < vns.len() && encloses(#[trigger] vns[j], vn) ==> vns[j].size <= c.size
                        && (j < k ==> vns[j].size < c.size)
            };
        assert(vns[i] == r && vns[k] == c);
        assert(encloses(vns[i], vn) && encloses(vns[k], vn));
    }
}

fn end_of(vn: &Vn) -> (r: u64)
    ensures
        r == vn_end(*vn),
{
    vn.addr_off.saturating_add(vn.size as u64)
}

/// The largest varnode of `vns` that covers `vn`, or `vn` itself.
pub fn largest_container_in(vns: &[Vn], vn: &Vn) -> (r: Vn)
    ensures
        r == container(vns@, *vn),
        is_container(vns@, *vn, r),
{
    let space = vn.addr_space.shortcut_raw();
    if space != 37 && space != 117 {
        assert(is_container(vns@, *vn, *vn));
        proof {
            lemma_container_unique(vns@, *vn, *vn);
        }
        return *vn;
    }
    let start = vn.addr_off;
    let end = end_of(vn);
    let mut best: Option<Vn> = None;
    let ghost mut at: int = 0;
    let mut i: usize = 0;
    while i < vns.len()
        invariant
            i <= vns.len(),
            aliasable(vn.addr_space),
            start == vn.addr_off,
            end == vn_end(*vn),
            best is None ==> forall|j: int| 0 <= j < i ==> !encloses(#[trigger] vns@[j], *vn),
            best matches Some(b) ==> {
                &&& 0 <= at < i
                &&& b == vns@[at]
                &&& encloses(b, *vn)
                &&& forall|j: int|
                    0 <= j < i && encloses(#[trigger] vns@[j], *vn) ==> vns@[j].size <= b.size && (j
                        < at ==> vns@[j].size < b.size)
            },
        decreases vns.len() - i,
    {
        let cand = vns[i];
        if cand.addr_space == vn.addr_space && cand.addr_off <= start && end_of(&cand) >= end {
            let larger = match best {
                None => true,
                Some(b) => b.size < cand.size,
            };
            if larger {
                best = Some(cand);
                proof {
                    at = i as int;
                }
            }
        }
        i += 1;
    }
    match best {
        Some(b) => {
            proof {
                assert(vns@[at] == b);
                assert(is_container(vns@, *vn, b));
                lemma_container_unique(vns@, *vn, b);
            }
            b
        },
        None => {
            proof {
                assert(is_container(vns@, *vn, *vn));
                lemma_container_unique(vns@, *vn, *vn);
            }
            *vn
        },
    }
}

/// Whether a list holds a varnode.
pub(crate) fn contains_vn(vns: &[Vn], vn: &Vn) -> (r: bool)
    ensures
        r == vns@.contains(*vn),
{
    let mut i: usize = 0;
    while i < vns.len()
        invariant
            i <= vns.len(),
            forall|j: int| 0 <= j < i ==> vns@[j] != *vn,
        decreases vns.len() - i,
    {
        if vns[i] == *vn {
            assert(vns@[i as int] == *vn);
            return true;
        }
        i += 1;
    }
    false
}

/// The containers of a list of varnodes, in order.
pub open spec fn containers(vns: Seq<Vn>, regs: Seq<Vn>) -> Seq<Vn> {
    Seq::new(regs.len(), |i: int| container(vns, regs[i]))
}

fn containers_of(vns: &[Vn], regs: &Vec<Vn>) -> (r: Vec<Vn>)
    ensures
        r@ == containers(vns@, regs@),
{
    let mut r: Vec<Vn> = Vec::new();
    let mut i: usize = 0;
    while i < regs.len()
        invariant
            i <= regs.len(),
            r@ == containers(vns@, regs@).take(i as int),
        decreases regs.len() - i,
    {
        r.push(largest_container_in(vns, &regs[i]));
        i += 1;
        assert(r@ =~= containers(vns@, regs@).take(i as int));
    }
    assert(containers(vns@, regs@).take(i as int) =~= containers(vns@, regs@));
    r
}

/// The return registers of a convention: integer, then float.
pub open spec fn ret_regs(cc: &BuiltCallingConvention) -> Seq<Vn> {
    cc.ret_val_regs@ + cc.ret_val_regs_float@
}

pub(crate) fn ret_regs_of(cc: &BuiltCallingConvention) -> (r: Vec<Vn>)
    ensures
        r@ == ret_regs(cc),
{
    let mut r = crate::target::copy_vns(&cc.ret_val_regs);
    let mut i: usize = 0;
    while i < cc.ret_val_regs_float.len()
        invariant
            i <= cc.ret_val_regs_float.len(),
            r@ == cc.ret_val_regs@ + cc.ret_val_regs_float@.take(i as int),
        decreases cc.ret_val_regs_float.len() - i,
    {
        r.push(cc.ret_val_regs_float[i]);
        i += 1;
        assert(r@ =~= cc.ret_val_regs@ + cc.ret_val_regs_float@.take(i as int));
    }
    assert(cc.ret_val_regs_float@.take(i as int) =~= cc.ret_val_regs_float@);
    r
}

/// A call under `cc` overwrites `v`: it is neither restored nor the stack
/// pointer.
pub open spec fn clobbered(vns: Seq<Vn>, cc: &BuiltCallingConvention, stack_vn: Vn, v: Vn) -> bool {
    !containers(vns, cc.callee_saved_regs@).contains(v) && v != stack_vn
}

/// The tracked registers in which a call under `cc` returns values.
pub open spec fn ret_vals(vns: Seq<Vn>, cc: &BuiltCallingConvention, stack_vn: Vn) -> Seq<Vn> {
    containers(vns, ret_regs(cc)).filter(
        |c: Vn| vns.contains(c) && clobbered(vns, cc, stack_vn, c),
    )
}

/// The other tracked registers that a call under `cc` overwrites.
pub open spec fn clobbers(vns: Seq<Vn>, cc: &BuiltCallingConvention, stack_vn: Vn) -> Seq<Vn> {
    vns.filter(
        |v: Vn|
            clobbered(vns, cc, stack_vn, v) && !containers(vns, ret_regs(cc)).contains(v),
    )
}

/// What a call under a convention overwrites: decides one varnode at a time.
pub(crate) struct ClobberOracle {
    pub callee_saved: Vec<Vn>,
    pub stack_vn: Vn,
}

impl ClobberOracle {
    pub(crate) fn new(vns: &[Vn], cc: &BuiltCallingConvention, stack_vn: Vn) -> (r: ClobberOracle)
        ensures
            r.callee_saved@ == containers(vns@, cc.callee_saved_regs@),
            r.stack_vn == stack_vn,
    {
        ClobberOracle { callee_saved: containers_of(vns, &cc.callee_saved_regs), stack_vn }
    }

    pub(crate) fn is_clobbered(&self, v: &Vn) -> (r: bool)
        ensures
            r == (!self.callee_saved@.contains(*v) && *v != self.stack_vn),
    {
        !contains_vn(&self.callee_saved, v) && *v != self.stack_vn
    }
}

/// The tracked registers in which a call under `cc` returns values, in the
/// order of the convention.
pub(crate) fn ret_vals_of(vns: &[Vn], cc: &BuiltCallingConvention, stack_vn: Vn) -> (r: Vec<Vn>)
    ensures
        r@ == ret_vals(vns@, cc, stack_vn),
{
    let oracle = ClobberOracle::new(vns, cc, stack_vn);
    let regs = ret_regs_of(cc);
    let all = containers_of(vns, &regs);
    let ghost keep = |c: Vn| vns@.contains(c) && clobbered(vns@, cc, stack_vn, c);
    let mut r: Vec<Vn> = Vec::new();
    let mut i: usize = 0;
    assert(all@.take(0) =~= Seq::<Vn>::empty());
    reveal(Seq::filter);
    while i < all.len()
        invariant
            i <= all.len(),
            oracle.callee_saved@ == containers(vns@, cc.callee_saved_regs@),
            oracle.stack_vn == stack_vn,
            keep == (|c: Vn| vns@.contains(c) && clobbered(vns@, cc, stack_vn, c)),
            r@ == all@.take(i as int).filter(keep),
        decreases all.len() - i,
    {
        reveal(Seq::filter);
        let c = all[i];
        proof {
            let next = all@.take(i + 1);
            assert(next.drop_last() =~= all@.take(i as int));
            assert(next.last() == c);
        }
        if contains_vn(vns, &c) && oracle.is_clobbered(&c) {
            r.push(c);
        }
        i += 1;
    }
    assert(all@.take(i as int) =~= all@);
    r
}

/// The tracked registers, in order, that a call under `cc` overwrites without
/// returning a value in them.
pub(crate) fn clobbers_of(vns: &[Vn], cc: &BuiltCallingConvention, stack_vn: Vn) -> (r: Vec<Vn>)
    ensures
        r@ == clobbers(vns@, cc, stack_vn),
{
    let oracle = ClobberOracle::new(vns, cc, stack_vn);
    let regs = ret_regs_of(cc);
    let ret = containers_of(vns, &regs);
    let ghost keep = |v: Vn|
        clobbered(vns@, cc, stack_vn, v) && !containers(vns@, ret_regs(cc)).contains(v);
    let mut r: Vec<Vn> = Vec::new();
    let mut i: usize = 0;
    assert(vns@.take(0) =~= Seq::<Vn>::empty());
    reveal(Seq::filter);
    while i < vns.len()
        invariant
            i <= vns.len(),
            oracle.callee_saved@ == containers(vns@, cc.callee_saved_regs@),
            oracle.stack_vn == stack_vn,
            ret@ == containers(vns@, ret_regs(cc)),
            keep == (|v: Vn|
                clobbered(vns@, cc, stack_vn, v) && !containers(vns@, ret_regs(cc)).contains(v)),
            r@ == vns@.take(i as int).filter(keep),
        decreases vns.len() - i,
    {
        reveal(Seq::filter);
        let v = vns[i];
        proof {
            let next = vns@.take(i + 1);
            assert(next.drop_last() =~= vns@.take(i as int));
            assert(next.last() == v);
        }
        if oracle.is_clobbered(&v) && !contains_vn(&ret, &v) {
            r.push(v);
        }
        i += 1;
    }
    assert(vns@.take(i as int) =~= vns@);
    r
}

/// No register is both a return value of a call and a plain clobber of it, and
/// the stack pointer is neither.
pub proof fn law_call_register_groups_disjoint(
    vns: Seq<Vn>,
    cc: &BuiltCallingConvention,
    stack_vn: Vn,
    v: Vn,
)
    ensures
        !(ret_vals(vns, cc, stack_vn).contains(v) && clobbers(vns, cc, stack_vn).contains(v)),
        !ret_vals(vns, cc, stack_vn).contains(stack_vn),
        !clobbers(vns, cc, stack_vn).contains(stack_vn),
{
    let all = containers(vns, ret_regs(cc));
    let p = |c: Vn| vns.contains(c) && clobbered(vns, cc, stack_vn, c);
    let q = |x: Vn| clobbered(vns, cc, stack_vn, x) && !all.contains(x);
    lemma_filter_contains(all, p, v);
    lemma_filter_contains(vns, q, v);
    lemma_filter_contains(all, p, stack_vn);
    lemma_filter_contains(vns, q, stack_vn);
}

proof fn lemma_filter_contains(s: Seq<Vn>, p: spec_fn(Vn) -> bool, v: Vn)
    ensures
        s.filter(p).contains(v) ==> s.contains(v) && p(v),
    decreases s.len(),
{
    reveal(Seq::filter);
    if s.len() > 0 {
        let rest = s.drop_last();
        lemma_filter_contains(rest, p, v);
        if s.filter(p).contains(v) {
            let k = s.filter(p).index_of(v);
            if p(s.last()) && k == rest.filter(p).len() {
                assert(s[s.len() - 1] == v);
            } else {
                assert(rest.filter(p)[k] == v);
                assert(rest.filter(p).contains(v));
                let j = rest.index_of(v);
                assert(s[j] == v);
            }
        }
    }
}

} // verus!
