//! [`Function`]: a graph plus the overlay that gives its nodes their meaning.

use super::cc::{
    clobbers, clobbers_of, container, largest_container_in, ret_regs, ret_regs_of,
    ret_vals, ret_vals_of,
};
use super::names::NameTable;
use super::side_tables::{
    remapped, ArgClass, MemDecomp, MemPlace, SideTables, Table,
};
use crate::arena::SwitchTableArena;
use crate::const_value::{const_number, ConstModel, ConstValue};
use crate::error::IrError;
use crate::graph::compact::{
    lemma_retained_injective, lemma_walk_closed, retained, NodeIdRemap,
};
use crate::graph::model::{kept_from, GraphModel};
use crate::graph::walk::{reachable, walk_order};
use crate::graph::Graph;
use crate::id_map::Alike;
use crate::interner::{interned, interned_all, EntityInterner, MemSlot};
use crate::iterators::Inputs;
use crate::node::{
    CcId, ConstId, InitialVnId, NodeId, NodeKind, SwitchTableId, UseId, ValueId, ValueKind,
    ValueType,
};
use crate::target::{BuiltCallingConvention, CcModel, Endianness, StackArgs, Vn};
use vstd::prelude::*;

verus! {

/// Order of tracked varnodes: by space, then offset, then size.
pub open spec fn vn_before(a: Vn, b: Vn) -> bool {
    a.addr_space.byte() < b.addr_space.byte() || (a.addr_space.byte() == b.addr_space.byte() && (
    a.addr_off < b.addr_off || (a.addr_off == b.addr_off && a.size < b.size)))
}

/// Varnodes in strictly ascending order.
pub open spec fn vns_ascending(s: Seq<Vn>) -> bool {
    forall|i: int, j: int| 0 <= i < j < s.len() ==> vn_before(s[i], s[j])
}

/// The ordering key of a tracked varnode.
pub fn vn_sort_key(vn: &Vn) -> (r: (u8, u64, u32))
    ensures
        r == (vn.addr_space.byte(), vn.addr_off, vn.size),
{
    (vn.addr_space.shortcut_raw(), vn.addr_off, vn.size)
}

fn sorts_before(a: &Vn, b: &Vn) -> (r: bool)
    ensures
        r == vn_before(*a, *b),
{
    let x = vn_sort_key(a);
    let y = vn_sort_key(b);
    x.0 < y.0 || (x.0 == y.0 && (x.1 < y.1 || (x.1 == y.1 && x.2 < y.2)))
}

/// Puts a varnode into its place, if it is not there.
fn insert_vn(list: &mut Vec<Vn>, x: Vn)
    requires
        vns_ascending(old(list)@),
    ensures
        vns_ascending(final(list)@),
        forall|v: Vn| #[trigger] final(list)@.contains(v) <==> old(list)@.contains(v) || v == x,
{
    let ghost s = list@;
    let mut i: usize = 0;
    while i < list.len() && sorts_before(&list[i], &x)
        invariant
            i <= list.len(),
            list@ == s,
            forall|k: int| 0 <= k < i ==> vn_before(#[trigger] s[k], x),
        decreases list.len() - i,
    {
        i += 1;
    }
    proof {
        crate::target::VnSpace::lemma_of_byte();
    }
    if i < list.len() && list[i] == x {
        assert(s[i as int] == x);
        return ;
    }
    list.insert(i, x);
    proof {
        let t = list@;
        assert(t =~= s.insert(i as int, x));
        if i < s.len() {
            assert(s[i as int] != x && !vn_before(s[i as int], x));
            assert(crate::target::VnSpace::of_byte(s[i as int].addr_space.byte())
                == s[i as int].addr_space);
            assert(crate::target::VnSpace::of_byte(x.addr_space.byte()) == x.addr_space);
            assert(vn_before(x, s[i as int]));
        }
        assert forall|a: int, b: int| 0 <= a < b < t.len() implies vn_before(t[a], t[b]) by {
            let aa = if a < i {
                a
            } else {
                a - 1
            };
            let bb = if b < i {
                b
            } else {
                b - 1
            };
            if a == i {
                assert(t[b] == s[b - 1]);
                if b - 1 > i {
                    assert(vn_before(s[i as int], s[b - 1]));
                }
            } else if b == i {
                assert(t[a] == s[a]);
            } else {
                assert(t[a] == s[aa] && t[b] == s[bb]);
            }
        }
        assert forall|v: Vn| #[trigger] t.contains(v) <==> s.contains(v) || v == x by {
            if s.contains(v) {
                let k = s.index_of(v);
                if k < i {
                    assert(t[k] == v);
                } else {
                    assert(t[k + 1] == v);
                }
            }
            if v == x {
                assert(t[i as int] == v);
            }
            if t.contains(v) {
                let k = t.index_of(v);
                if k < i {
                    assert(s[k] == v);
                } else if k > i {
                    assert(s[k - 1] == v);
                }
            }
        }
    }
}

/// A lifted function: the graph and everything known about it. It always has
/// an entry node.
pub struct Function {
    graph: Graph,
    entry: NodeId,
    default_cc: BuiltCallingConvention,
    endianness: Endianness,
    vn_interner: EntityInterner<Vn>,
    side_tables: SideTables,
    const_interner: EntityInterner<ConstValue>,
    switch_tables: SwitchTableArena,
    call_ccs: EntityInterner<BuiltCallingConvention>,
    call_other_names: NameTable,
}

/// The little-endian limbs that a type spans, cut or filled up with zeros, and
/// without the bits above its width.
pub open spec fn trimmed(limbs: Seq<u64>, ty: ValueType) -> Seq<u64> {
    let count = ((ty.width() + 7) / 8 + 7) / 8;
    Seq::new(
        count,
        |i: int|
            {
                let limb = if i < limbs.len() {
                    limbs[i]
                } else {
                    0
                };
                if i == count - 1 {
                    limb & (u64::MAX >> ((count * 64 - ty.width()) as u64))
                } else {
                    limb
                }
            },
    )
}

/// What interning little-endian limbs at a type stores.
pub open spec fn stored_limbs(limbs: Seq<u64>, ty: ValueType) -> ConstModel {
    let number = const_number(ConstModel::Wide(trimmed(limbs, ty)));
    if number <= u128::MAX {
        ConstModel::Bits((number as u128) & ty.mask())
    } else {
        ConstModel::Wide(trimmed(limbs, ty))
    }
}

impl Function {
    // -- what a function is made of -------------------------------------------

    pub closed spec fn gr(&self) -> Graph {
        self.graph
    }

    /// The graph as mathematics.
    pub open spec fn g(&self) -> GraphModel {
        self.gr()@
    }

    pub closed spec fn entry_node(&self) -> NodeId {
        self.entry
    }

    pub closed spec fn tables(&self) -> SideTables {
        self.side_tables
    }

    pub closed spec fn cc_default(&self) -> BuiltCallingConvention {
        self.default_cc
    }

    pub closed spec fn endian(&self) -> Endianness {
        self.endianness
    }

    /// The tracked varnodes, in id order.
    pub closed spec fn vns(&self) -> Seq<Vn> {
        self.vn_interner@
    }

    /// The integer constants, in id order.
    pub closed spec fn consts(&self) -> Seq<ConstModel> {
        self.const_interner@
    }

    /// The switch tables, in id order.
    pub closed spec fn switches(&self) -> Seq<Seq<u64>> {
        self.switch_tables@
    }

    /// The override conventions, in id order.
    pub closed spec fn ccs(&self) -> Seq<CcModel> {
        self.call_ccs@
    }

    /// The name of a user-defined operation.
    pub closed spec fn op_name_of(&self, user_op_id: u64) -> Option<Seq<char>> {
        self.call_other_names.at(user_op_id)
    }

    /// The function is well formed: so are its parts, and it has its entry.
    pub closed spec fn wf(&self) -> bool {
        &&& self.graph.wf()
        &&& self.graph@.has_node(self.entry)
        &&& self.side_tables.wf()
        &&& self.vn_interner.wf()
        &&& self.const_interner.wf()
        &&& self.call_ccs.wf()
        &&& self.switch_tables@.len() <= u32::MAX
        &&& self.call_other_names.wf()
    }

    /// What well-formedness gives.
    pub broadcast proof fn lemma_wf(&self)
        requires
            #[trigger] self.wf(),
        ensures
            self.gr().wf(),
            self.g().valid(),
            self.g().has_node(self.entry_node()),
            self.tables().wf(),
            self.vns().no_duplicates(),
            self.vns().len() <= u32::MAX,
            self.consts().no_duplicates(),
            self.ccs().no_duplicates(),
    {
        self.graph.lemma_wf_valid();
    }

    /// The function with another graph.
    pub closed spec fn with_graph(self, graph: Graph) -> Function {
        Function { graph, ..self }
    }

    /// The function with other side tables.
    pub closed spec fn with_tables(self, side_tables: SideTables) -> Function {
        Function { side_tables, ..self }
    }

    /// A function with another well-formed graph that has the entry is well
    /// formed and otherwise the same.
    pub proof fn law_with_graph(self, graph: Graph)
        ensures
            self.wf() && graph.wf() && graph@.has_node(self.entry_node()) ==> self.with_graph(
                graph,
            ).wf(),
            self.with_graph(graph).gr() == graph,
            self.with_graph(graph).entry_node() == self.entry_node(),
            self.with_graph(graph).tables() == self.tables(),
            self.with_graph(graph).same_payloads(&self),
    {
    }

    /// A function with other well-formed tables is well formed and otherwise
    /// the same.
    pub proof fn law_with_tables(self, tables: SideTables)
        ensures
            self.wf() && tables.wf() ==> self.with_tables(tables).wf(),
            self.with_tables(tables).gr() == self.gr(),
            self.with_tables(tables).entry_node() == self.entry_node(),
            self.with_tables(tables).tables() == tables,
            self.with_tables(tables).same_payloads(&self),
    {
    }

    /// Two functions agree in everything beside graph, entry and side tables.
    pub open spec fn same_payloads(&self, other: &Function) -> bool {
        &&& self.cc_default() == other.cc_default()
        &&& self.endian() == other.endian()
        &&& self.vns() == other.vns()
        &&& self.consts() == other.consts()
        &&& self.switches() == other.switches()
        &&& self.ccs() == other.ccs()
        &&& forall|id: u64| #[trigger] self.op_name_of(id) == other.op_name_of(id)
    }

    // -- construction ----------------------------------------------------------

    /// A function with just its entry node. The tracked varnodes are put in
    /// order and deduplicated, so that ids do not depend on how they came.
    pub fn new(
        default_cc: BuiltCallingConvention,
        endianness: Endianness,
        tracked_vns: Vec<Vn>,
    ) -> (r: Function)
        requires
            tracked_vns@.len() <= u32::MAX,
        ensures
            r.wf(),
            r.g().nodes.len() == 1,
            r.entry_node().0 == 0,
            r.g().uses.len() == 0,
            r.g().values.len() == 1,
            r.g().kind(r.entry_node()) == NodeKind::Entry,
            r.g().ins(r.entry_node()) == Seq::<ValueId>::empty(),
            r.g().out_kinds(r.entry_node()) == seq![ValueKind::Control],
            r.cc_default() == default_cc,
            r.endian() == endianness,
            vns_ascending(r.vns()),
            forall|v: Vn| #[trigger] r.vns().contains(v) <==> tracked_vns@.contains(v),
            r.consts().len() == 0,
            r.switches().len() == 0,
            r.ccs().len() == 0,
            forall|id: u64| (#[trigger] r.op_name_of(id)) is None,
            r.tables().empty(),
    {
        let mut graph = Graph::new();
        let inputs: [ValueId; 0] = [];
        let outputs: [ValueKind; 1] = [ValueKind::Control];
        let ghost g0 = graph@;
        let entry = graph.create_node(NodeKind::Entry, &inputs, &outputs);
        proof {
            let key = crate::cache::node_key(NodeKind::Entry, inputs@, outputs@);
            assert(!g0.cache.dom().contains(key));
            assert(outputs@ =~= seq![ValueKind::Control]);
            assert(inputs@ =~= Seq::<ValueId>::empty());
        }
        let mut sorted: Vec<Vn> = Vec::new();
        let mut i: usize = 0;
        while i < tracked_vns.len()
            invariant
                i <= tracked_vns.len(),
                vns_ascending(sorted@),
                sorted@.len() <= i,
                forall|v: Vn|
                    #[trigger] sorted@.contains(v) <==> tracked_vns@.take(i as int).contains(v),
            decreases tracked_vns.len() - i,
        {
            let ghost before = sorted@;
            let x = tracked_vns[i];
            insert_vn(&mut sorted, x);
            proof {
                let part = tracked_vns@.take(i as int);
                let whole = tracked_vns@.take(i + 1);
                assert(whole =~= part.push(x));
                assert forall|v: Vn| #[trigger] sorted@.contains(v) <==> whole.contains(v) by {
                    assert(before.contains(v) <==> part.contains(v));
                    if part.contains(v) {
                        let k = part.index_of(v);
                        assert(whole[k] == v);
                    }
                    if v == x {
                        assert(whole[i as int] == v);
                    }
                    if whole.contains(v) {
                        let k = whole.index_of(v);
                        if k < i {
                            assert(part[k] == v);
                        }
                    }
                }
                lemma_ascending_count(sorted@, whole);
            }
            i += 1;
        }
        assert(tracked_vns@.take(i as int) =~= tracked_vns@);
        let mut vn_interner: EntityInterner<Vn> = EntityInterner::new();
        let mut j: usize = 0;
        while j < sorted.len()
            invariant
                j <= sorted.len() <= u32::MAX,
                vns_ascending(sorted@),
                vn_interner.wf(),
                vn_interner@ == sorted@.take(j as int),
            decreases sorted.len() - j,
        {
            proof {
                let part = sorted@.take(j as int);
                if part.contains(sorted@[j as int]) {
                    let k = part.index_of(sorted@[j as int]);
                    assert(vn_before(sorted@[k], sorted@[j as int]));
                }
                assert(sorted@.take(j + 1) =~= part.push(sorted@[j as int]));
            }
            vn_interner.intern(sorted[j]);
            j += 1;
        }
        assert(sorted@.take(j as int) =~= sorted@);
        Function {
            graph,
            entry,
            default_cc,
            endianness,
            vn_interner,
            side_tables: SideTables::new(),
            const_interner: EntityInterner::new(),
            switch_tables: SwitchTableArena::new(),
            call_ccs: EntityInterner::new(),
            call_other_names: NameTable::new(),
        }
    }

    /// The graph.
    pub fn graph(&self) -> (r: &Graph)
        ensures
            *r == self.gr(),
    {
        &self.graph
    }

    /// The graph, to be changed in place.
    pub fn graph_mut(&mut self) -> (r: &mut Graph)
        ensures
            *r == old(self).gr(),
            *final(self) == old(self).with_graph(*final(r)),
    {
        &mut self.graph
    }

    /// The side tables.
    pub fn side_tables(&self) -> (r: &SideTables)
        ensures
            *r == self.tables(),
    {
        &self.side_tables
    }

    /// The side tables, to be changed in place.
    pub fn side_tables_mut(&mut self) -> (r: &mut SideTables)
        ensures
            *r == old(self).tables(),
            *final(self) == old(self).with_tables(*final(r)),
    {
        &mut self.side_tables
    }

    /// The entry node.
    pub fn entry(&self) -> (r: NodeId)
        ensures
            r == self.entry_node(),
            self.wf() ==> self.g().has_node(r),
    {
        self.entry
    }

    /// The convention the function was built under.
    pub fn default_cc(&self) -> (r: &BuiltCallingConvention)
        ensures
            *r == self.cc_default(),
    {
        &self.default_cc
    }

    /// The byte order.
    pub fn endianness(&self) -> (r: Endianness)
        ensures
            r == self.endian(),
    {
        self.endianness
    }

    // -- constants ---------------------------------------------------------------

    /// Interns `value` cut down to the width of `ty`. At a float type nothing
    /// is left of it.
    pub fn intern_int_const(&mut self, value: u128, ty: ValueType) -> (r: ConstId)
        requires
            old(self).wf(),
            old(self).consts().len() < u32::MAX,
        ensures
            final(self).wf(),
            final(self).consts() == interned(
                old(self).consts(),
                ConstModel::Bits(value & ty.mask()),
            ),
            r.0 < final(self).consts().len(),
            final(self).consts()[r.0 as int] == ConstModel::Bits(value & ty.mask()),
            final(self).same_but_consts(old(self)),
    {
        let masked: u128 = value & ty.bit_mask_u128();
        let id = self.const_interner.intern(ConstValue::Bits(masked));
        ConstId(id)
    }

    /// Two functions agree in everything but the constants.
    pub open spec fn same_but_consts(&self, other: &Function) -> bool {
        &&& self.gr() == other.gr()
        &&& self.entry_node() == other.entry_node()
        &&& self.tables() == other.tables()
        &&& self.cc_default() == other.cc_default()
        &&& self.endian() == other.endian()
        &&& self.vns() == other.vns()
        &&& self.switches() == other.switches()
        &&& self.ccs() == other.ccs()
        &&& forall|id: u64| #[trigger] self.op_name_of(id) == other.op_name_of(id)
    }

    /// Interns a constant given as little-endian limbs, cut down to what `ty`
    /// spans first: equal constants must be spelled alike to get one id.
    pub fn intern_int_const_limbs(&mut self, limbs: &[u64], ty: ValueType) -> (r: ConstId)
        requires
            old(self).wf(),
            old(self).consts().len() < u32::MAX,
        ensures
            final(self).wf(),
            final(self).consts() == interned(old(self).consts(), stored_limbs(limbs@, ty)),
            r.0 < final(self).consts().len(),
            final(self).consts()[r.0 as int] == stored_limbs(limbs@, ty),
            final(self).same_but_consts(old(self)),
    {
        let limb_count: usize = (ty.byte_size() + 7) / 8;
        let spare: u64 = (limb_count * 64 - ty.bit_width()) as u64;
        let mut cut: Vec<u64> = Vec::new();
        let mut i: usize = 0;
        while i < limb_count
            invariant
                i <= limb_count,
                limb_count == ((ty.width() + 7) / 8 + 7) / 8,
                limb_count >= 1,
                spare == limb_count * 64 - ty.width(),
                spare < 64,
                cut@ == trimmed(limbs@, ty).take(i as int),
            decreases limb_count - i,
        {
            let limb: u64 = if i < limbs.len() {
                limbs[i]
            } else {
                0
            };
            if i == limb_count - 1 {
                cut.push(limb & (u64::MAX >> spare));
            } else {
                cut.push(limb);
            }
            i += 1;
            assert(cut@ =~= trimmed(limbs@, ty).take(i as int));
        }
        assert(trimmed(limbs@, ty).take(i as int) =~= trimmed(limbs@, ty));
        let value = ConstValue::Wide(cut);
        match value.fits_u128() {
            Some(v) => self.intern_int_const(v, ty),
            None => {
                let id = self.const_interner.intern(value);
                ConstId(id)
            },
        }
    }

    /// An interned constant.
    pub fn const_value(&self, id: ConstId) -> (r: &ConstValue)
        requires
            id.0 < self.consts().len(),
        ensures
            r@ == self.consts()[id.0 as int],
    {
        self.const_interner.at(id.0)
    }

    /// An interned constant, if the id is one of this function.
    pub fn const_value_opt(&self, id: ConstId) -> (r: Option<&ConstValue>)
        ensures
            match r {
                Some(c) => id.0 < self.consts().len() && c@ == self.consts()[id.0 as int],
                None => id.0 >= self.consts().len(),
            },
    {
        self.const_interner.get(id.0)
    }

    // -- tracked varnodes ----------------------------------------------------------

    /// The tracked varnodes, in id order.
    pub fn all_vns(&self) -> (r: &[Vn])
        ensures
            r@ == self.vns(),
    {
        let r = self.vn_interner.values_as_slice();
        assert(r@ =~= self.vns());
        r
    }

    /// A tracked varnode.
    pub fn initial_vn(&self, id: InitialVnId) -> (r: Vn)
        requires
            id.0 < self.vns().len(),
        ensures
            r == self.vns()[id.0 as int],
    {
        *self.vn_interner.at(id.0)
    }

    /// The tracked varnode with an id.
    pub open spec fn vn_at(&self, id: InitialVnId) -> Option<Vn> {
        if id.0 < self.vns().len() {
            Some(self.vns()[id.0 as int])
        } else {
            None
        }
    }

    /// A tracked varnode, if the id is one of this function.
    pub fn initial_vn_opt(&self, id: InitialVnId) -> (r: Option<Vn>)
        ensures
            r == self.vn_at(id),
    {
        match self.vn_interner.get(id.0) {
            Some(vn) => Some(*vn),
            None => None,
        }
    }

    /// The id of a varnode, if it is tracked.
    pub fn vn_id_of(&self, vn: &Vn) -> (r: Option<InitialVnId>)
        requires
            self.wf(),
        ensures
            match r {
                Some(id) => id.0 < self.vns().len() && self.vns()[id.0 as int] == *vn,
                None => !self.vns().contains(*vn),
            },
    {
        match self.vn_interner.key_of(vn) {
            Some(i) => Some(InitialVnId(i)),
            None => None,
        }
    }

    /// The ids of the tracked varnodes, ascending.
    pub fn vn_ids(&self) -> (r: Vec<InitialVnId>)
        requires
            self.wf(),
        ensures
            r@.len() == self.vns().len(),
            forall|i: int| 0 <= i < r@.len() ==> (#[trigger] r@[i]).0 == i,
    {
        let len = self.vn_interner.len();
        let mut r: Vec<InitialVnId> = Vec::new();
        let mut i: usize = 0;
        while i < len
            invariant
                i <= len <= u32::MAX,
                r@.len() == i,
                forall|k: int| 0 <= k < i ==> (#[trigger] r@[k]).0 == k,
            decreases len - i,
        {
            r.push(InitialVnId(i as u32));
            i += 1;
        }
        r
    }

    /// Replaces the tracked varnodes: each gets the next id at its first
    /// occurrence.
    pub fn set_all_vns(&mut self, vns: Vec<Vn>)
        requires
            old(self).wf(),
            vns@.len() <= u32::MAX,
        ensures
            final(self).wf(),
            final(self).vns() == interned_all(Seq::<Vn>::empty(), vns@),
            final(self).gr() == old(self).gr(),
            final(self).entry_node() == old(self).entry_node(),
            final(self).tables() == old(self).tables(),
            final(self).consts() == old(self).consts(),
            final(self).switches() == old(self).switches(),
            final(self).ccs() == old(self).ccs(),
            final(self).cc_default() == old(self).cc_default(),
            final(self).endian() == old(self).endian(),
            forall|id: u64| #[trigger] final(self).op_name_of(id) == old(self).op_name_of(id),
    {
        let mut interner: EntityInterner<Vn> = EntityInterner::new();
        let mut i: usize = 0;
        assert(vns@.take(0) =~= Seq::<Vn>::empty());
        while i < vns.len()
            invariant
                i <= vns.len() <= u32::MAX,
                interner.wf(),
                interner@.len() <= i,
                interner@ == interned_all(Seq::<Vn>::empty(), vns@.take(i as int)),
            decreases vns.len() - i,
        {
            proof {
                let next = vns@.take(i + 1);
                assert(next.drop_last() =~= vns@.take(i as int));
                assert(next.last() == vns@[i as int]);
            }
            interner.intern(vns[i]);
            i += 1;
        }
        assert(vns@.take(i as int) =~= vns@);
        self.vn_interner = interner;
    }

    /// The varnode a value stands for.
    pub open spec fn vn_for(&self, v: ValueId) -> Option<Vn> {
        match self.tables().vn_of(v) {
            Some(id) => self.vn_at(id),
            None => None,
        }
    }

    /// The varnode a value stands for.
    pub fn get_vn_for_value(&self, value: ValueId) -> (r: Option<Vn>)
        ensures
            r == self.vn_for(value),
    {
        match self.side_tables.value_vn(value) {
            Some(id) => self.initial_vn_opt(id),
            None => None,
        }
    }

    /// Records the varnode a value stands for; nothing if it is not tracked.
    pub fn set_vn_for_value(&mut self, value: ValueId, vn: Vn)
        requires
            old(self).wf(),
        ensures
            final(self).wf(),
            final(self).gr() == old(self).gr(),
            final(self).entry_node() == old(self).entry_node(),
            final(self).same_payloads(old(self)),
            final(self).tables().same_except(&old(self).tables(), Table::ValueVn),
            old(self).vns().contains(vn) ==> final(self).vn_for(value) == Some(vn) && forall|
                v: ValueId,
            |
                v != value ==> #[trigger] final(self).vn_for(v) == old(self).vn_for(v),
            !old(self).vns().contains(vn) ==> *final(self) == *old(self),
    {
        match self.vn_id_of(&vn) {
            Some(id) => {
                proof {
                    assert(self.vns()[id.0 as int] == vn);
                    assert(self.vns().contains(vn));
                }
                self.side_tables.set_value_vn(value, id);
            },
            None => {
                proof {
                    self.side_tables.lemma_same_except_refl(Table::ValueVn);
                }
            },
        }
    }

    /// Every value with a varnode, in id order, with the varnode.
    pub fn value_vn_entries(&self) -> (r: Vec<(ValueId, Vn)>)
        ensures
            forall|v: ValueId, vn: Vn|
                #[trigger] r@.contains((v, vn)) <==> self.vn_for(v) == Some(vn),
            forall|i: int, j: int| 0 <= i < j < r@.len() ==> r@[i].0.0 < r@[j].0.0,
    {
        let entries = self.side_tables.value_vn_entries();
        let mut r: Vec<(ValueId, Vn)> = Vec::new();
        let mut i: usize = 0;
        while i < entries.len()
            invariant
                i <= entries.len(),
                forall|v: ValueId, id: InitialVnId|
                    #[trigger] entries@.contains((v, id)) <==> self.tables().vn_of(v) == Some(id),
                forall|k: int|
                    0 <= k < r@.len() ==> self.vn_for((#[trigger] r@[k]).0) == Some(r@[k].1),
                forall|a: int, b: int|
                    0 <= a < b < entries@.len() ==> entries@[a].0.0 < entries@[b].0.0,
                forall|a: int, b: int| 0 <= a < b < r@.len() ==> r@[a].0.0 < r@[b].0.0,
                forall|a: int, b: int|
                    0 <= a < r@.len() && i <= b < entries@.len() ==> (#[trigger] r@[a]).0.0 < (
                    #[trigger] entries@[b]).0.0,
                forall|k: int|
                    #![trigger entries@[k]]
                    0 <= k < i && self.vn_at(entries@[k].1) is Some ==> r@.contains(
                        (entries@[k].0, self.vn_at(entries@[k].1)->Some_0),
                    ),
            decreases entries.len() - i,
        {
            let ghost before = r@;
            let (v, id) = entries[i];
            assert(entries@.contains(entries@[i as int]));
            if let Some(vn) = self.initial_vn_opt(id) {
                r.push((v, vn));
                assert(r@[before.len() as int] == (v, vn));
            }
            proof {
                assert forall|k: int|
                    #![trigger entries@[k]]
                    0 <= k < i + 1 && self.vn_at(entries@[k].1) is Some implies r@.contains(
                    (entries@[k].0, self.vn_at(entries@[k].1)->Some_0),
                ) by {
                    if k < i {
                        let x = (entries@[k].0, self.vn_at(entries@[k].1)->Some_0);
                        assert(before.contains(x));
                        let j = before.index_of(x);
                        assert(r@[j] == x);
                    }
                }
            }
            i += 1;
        }
        proof {
            assert forall|v: ValueId, vn: Vn| #[trigger] r@.contains((v, vn)) <==> self.vn_for(v)
                == Some(vn) by {
                if r@.contains((v, vn)) {
                    let k = r@.index_of((v, vn));
                    assert(r@[k] == (v, vn));
                }
                if self.vn_for(v) == Some(vn) {
                    let id = self.tables().vn_of(v)->Some_0;
                    assert(entries@.contains((v, id)));
                    let k = entries@.index_of((v, id));
                    assert(entries@[k] == (v, id));
                }
            }
        }
        r
    }

    /// `n` is recorded as the initial value of `vn`.
    pub open spec fn starts_at(&self, vn: Vn, n: NodeId) -> bool {
        exists|id: InitialVnId|
            #[trigger] self.tables().initial_var(id) == Some(n) && self.vn_at(id) == Some(vn)
    }

    /// The recorded initial-value nodes of the first varnodes, each behind its
    /// varnode.
    pub open spec fn initial_vars_below(&self, end: nat) -> Seq<(Vn, NodeId)>
        decreases end,
    {
        if end == 0 {
            Seq::empty()
        } else {
            let rest = self.initial_vars_below((end - 1) as nat);
            match self.tables().initial_var(InitialVnId((end - 1) as u32)) {
                Some(n) => rest.push((self.vns()[end - 1], n)),
                None => rest,
            }
        }
    }

    /// The recorded initial-value nodes, by tracked varnode, in id order.
    pub fn initial_var_index_entries(&self) -> (r: Vec<(Vn, NodeId)>)
        requires
            self.wf(),
        ensures
            r@ == self.initial_vars_below(self.vns().len()),
            forall|i: int|
                0 <= i < r@.len() ==> self.starts_at((#[trigger] r@[i]).0, r@[i].1),
            forall|id: InitialVnId|
                self.vn_at(id) is Some && (#[trigger] self.tables().initial_var(id)) is Some
                    ==> r@.contains(
                    (self.vn_at(id)->Some_0, self.tables().initial_var(id)->Some_0),
                ),
    {
        let len = self.vn_interner.len();
        let mut r: Vec<(Vn, NodeId)> = Vec::new();
        let mut i: usize = 0;
        while i < len
            invariant
                i <= len == self.vns().len(),
                len <= u32::MAX,
                r@ == self.initial_vars_below(i as nat),
                forall|k: int|
                    0 <= k < r@.len() ==> self.starts_at((#[trigger] r@[k]).0, r@[k].1),
                forall|id: InitialVnId|
                    id.0 < i && (#[trigger] self.tables().initial_var(id)) is Some ==> r@.contains(
                        (self.vn_at(id)->Some_0, self.tables().initial_var(id)->Some_0),
                    ),
            decreases len - i,
        {
            let ghost before = r@;
            let id = InitialVnId(i as u32);
            if let Some(n) = self.side_tables.initial_var_node(id) {
                let vn = self.initial_vn(id);
                r.push((vn, n));
                assert(r@[before.len() as int] == (vn, n));
                assert(self.tables().initial_var(id) == Some(n));
            }
            proof {
                assert forall|k: int| 0 <= k < r@.len() implies self.starts_at(
                    (#[trigger] r@[k]).0,
                    r@[k].1,
                ) by {
                    if k < before.len() {
                        assert(before[k] == r@[k]);
                    }
                }
                assert forall|x: InitialVnId|
                    x.0 < i + 1 && (#[trigger] self.tables().initial_var(x))
                        is Some implies r@.contains(
                    (self.vn_at(x)->Some_0, self.tables().initial_var(x)->Some_0),
                ) by {
                    let e = (self.vn_at(x)->Some_0, self.tables().initial_var(x)->Some_0);
                    if x.0 < i {
                        assert(before.contains(e));
                        let j = before.index_of(e);
                        assert(r@[j] == e);
                    } else {
                        assert(x == id);
                        assert(r@[before.len() as int] == e);
                    }
                }
            }
            i += 1;
        }
        r
    }

    /// Where the id of a tracked varnode is.
    pub open spec fn vn_index(&self, vn: Vn) -> Option<InitialVnId> {
        if self.vns().contains(vn) {
            Some(InitialVnId(self.vns().index_of(vn) as u32))
        } else {
            None
        }
    }

    /// The node of the stack pointer's initial value, if the function tracks
    /// one; it may have been culled.
    pub fn initial_sp(&self) -> (r: Option<NodeId>)
        requires
            self.wf(),
        ensures
            r == (match self.vn_index(self.cc_default().stack_vn) {
                Some(id) => self.tables().initial_var(id),
                None => None,
            }),
    {
        let sp = self.default_cc.stack_vn;
        match self.vn_id_of(&sp) {
            Some(id) => {
                proof {
                    self.lemma_vn_index(sp, id);
                }
                self.side_tables.initial_var_node(id)
            },
            None => None,
        }
    }

    proof fn lemma_vn_index(&self, vn: Vn, id: InitialVnId)
        requires
            self.wf(),
            id.0 < self.vns().len(),
            self.vns()[id.0 as int] == vn,
        ensures
            self.vn_index(vn) == Some(id),
    {
        assert(self.vns().contains(vn));
        let k = self.vns().index_of(vn);
        assert(self.vns()[k] == self.vns()[id.0 as int]);
    }

    /// The initial value of a tracked varnode.
    pub fn initial_var_value(&self, vn: &Vn) -> (r: Option<ValueId>)
        requires
            self.wf(),
            forall|id: InitialVnId|
                (#[trigger] self.tables().initial_var(id)) matches Some(n) ==> self.g().has_node(n),
        ensures
            r == (match self.vn_index(*vn) {
                Some(id) => match self.tables().initial_var(id) {
                    Some(n) => if self.g().outs(n).len() > 0 {
                        Some(self.g().outs(n)[0])
                    } else {
                        None
                    },
                    None => None,
                },
                None => None,
            }),
    {
        match self.vn_id_of(vn) {
            Some(id) => {
                proof {
                    self.lemma_vn_index(*vn, id);
                }
                match self.side_tables.initial_var_node(id) {
                    Some(n) => {
                        assert(self.tables().initial_var(id) == Some(n));
                        let outs = self.graph.node_outputs(n);
                        if outs.len() > 0 {
                            Some(outs[0])
                        } else {
                            None
                        }
                    },
                    None => None,
                }
            },
            None => None,
        }
    }

    /// `n` is the node of the stack pointer's initial value.
    pub open spec fn is_sp_node(&self, n: NodeId) -> bool {
        match self.g().kind(n) {
            NodeKind::InitialVar(id) => self.vn_at(id) == Some(self.cc_default().stack_vn),
            _ => false,
        }
    }

    /// The `k`-th node of the walk is the first one of the stack pointer's
    /// initial value.
    pub open spec fn first_sp(&self, k: int) -> bool {
        let walk = walk_order(self.g(), self.entry_node());
        &&& 0 <= k < walk.len()
        &&& self.is_sp_node(walk[k])
        &&& forall|j: int| 0 <= j < k ==> !self.is_sp_node(#[trigger] walk[j])
    }

    /// The stack pointer on entry: the output of the first node, nearest the
    /// entry, that is its initial value.
    pub fn initial_sp_value(&self) -> (r: Option<ValueId>)
        requires
            self.wf(),
            forall|n: NodeId|
                reachable(self.g(), self.entry_node(), n) && #[trigger] self.is_sp_node(n)
                    ==> self.g().outs(n).len() == 1,
        ensures
            match r {
                Some(v) => exists|k: int| #[trigger]
                    self.first_sp(k) && self.g().outs(
                        walk_order(self.g(), self.entry_node())[k],
                    )[0] == v,
                None => forall|n: NodeId|
                    reachable(self.g(), self.entry_node(), n) ==> !#[trigger] self.is_sp_node(n),
            },
    {
        let order = self.graph.walk_from(self.entry);
        let sp = self.default_cc.stack_vn;
        let mut i: usize = 0;
        while i < order.len()
            invariant
                self.wf(),
                sp == self.cc_default().stack_vn,
                i <= order.len(),
                order@ == walk_order(self.g(), self.entry_node()),
                forall|k: int| 0 <= k < order@.len() ==> self.g().has_node(#[trigger] order@[k]),
                forall|n: NodeId|
                    #[trigger] order@.contains(n) <==> reachable(
                        self.g(),
                        self.entry_node(),
                        n,
                    ),
                forall|n: NodeId|
                    reachable(self.g(), self.entry_node(), n) && #[trigger] self.is_sp_node(n)
                        ==> self.g().outs(n).len() == 1,
                forall|k: int| 0 <= k < i ==> !self.is_sp_node(#[trigger] order@[k]),
            decreases order.len() - i,
        {
            let n = order[i];
            if let NodeKind::InitialVar(id) = *self.graph.node_kind(n) {
                if let Some(vn) = self.initial_vn_opt(id) {
                    if vn == sp {
                        proof {
                            assert(self.is_sp_node(n));
                            assert(order@.contains(n));
                            assert(self.first_sp(i as int));
                        }
                        return Some(self.graph.node_outputs(n)[0]);
                    }
                }
            }
            i += 1;
        }
        proof {
            assert forall|n: NodeId| reachable(self.g(), self.entry_node(), n) implies !
                #[trigger] self.is_sp_node(n) by {
                assert(order@.contains(n));
                let k = order@.index_of(n);
                assert(!self.is_sp_node(order@[k]));
            }
        }
        None
    }

    // -- registers of the convention -------------------------------------------------

    /// The return registers: integer, then float, in order.
    pub fn ret_val_regs(&self) -> (r: Vec<Vn>)
        ensures
            r@ == ret_regs(&self.cc_default()),
    {
        ret_regs_of(&self.default_cc)
    }

    /// The stack pointer of the convention.
    pub fn stack_vn(&self) -> (r: Vn)
        ensures
            r == self.cc_default().stack_vn,
    {
        self.default_cc.stack_vn
    }

    /// The largest tracked varnode that covers `vn`, or `vn` itself.
    pub fn container_of(&self, vn: &Vn) -> (r: Vn)
        ensures
            r == container(self.vns(), *vn),
    {
        largest_container_in(self.all_vns(), vn)
    }

    /// The tracked registers in which a call under `cc` returns values.
    pub fn call_ret_vals_for(&self, cc: &BuiltCallingConvention) -> (r: Vec<Vn>)
        ensures
            r@ == ret_vals(self.vns(), cc, self.cc_default().stack_vn),
    {
        ret_vals_of(self.all_vns(), cc, self.default_cc.stack_vn)
    }

    /// The other tracked registers that a call under `cc` overwrites.
    pub fn call_clobbered_for(&self, cc: &BuiltCallingConvention) -> (r: Vec<Vn>)
        ensures
            r@ == clobbers(self.vns(), cc, self.cc_default().stack_vn),
    {
        clobbers_of(self.all_vns(), cc, self.default_cc.stack_vn)
    }

    /// [`Self::call_clobbered_for`] the function's own convention.
    pub fn call_clobbered_regs(&self) -> (r: Vec<Vn>)
        ensures
            r@ == clobbers(self.vns(), &self.cc_default(), self.cc_default().stack_vn),
    {
        self.call_clobbered_for(&self.default_cc)
    }

    /// [`Self::call_ret_vals_for`] the function's own convention.
    pub fn call_ret_val_regs(&self) -> (r: Vec<Vn>)
        ensures
            r@ == ret_vals(self.vns(), &self.cc_default(), self.cc_default().stack_vn),
    {
        self.call_ret_vals_for(&self.default_cc)
    }

    /// The tracked registers an unmodelled user operation may overwrite: all
    /// but the stack pointer.
    pub fn call_other_clobbered_regs(&self) -> (r: Vec<Vn>)
        ensures
            r@ == self.vns().filter(|v: Vn| v != self.cc_default().stack_vn),
    {
        let vns = self.all_vns();
        let sp = self.default_cc.stack_vn;
        let ghost keep = |v: Vn| v != self.cc_default().stack_vn;
        let mut r: Vec<Vn> = Vec::new();
        let mut i: usize = 0;
        reveal(Seq::filter);
        assert(vns@.take(0) =~= Seq::<Vn>::empty());
        while i < vns.len()
            invariant
                i <= vns.len(),
                sp == self.cc_default().stack_vn,
                keep == (|v: Vn| v != self.cc_default().stack_vn),
                r@ == vns@.take(i as int).filter(keep),
            decreases vns.len() - i,
        {
            reveal(Seq::filter);
            proof {
                let next = vns@.take(i + 1);
                assert(next.drop_last() =~= vns@.take(i as int));
                assert(next.last() == vns@[i as int]);
            }
            if vns[i] != sp {
                r.push(vns[i]);
            }
            i += 1;
        }
        assert(vns@.take(i as int) =~= vns@);
        r
    }

    // -- payloads of nodes -----------------------------------------------------------

    /// The convention in force at a node: the override its kind carries, the
    /// one recorded for it, or the default.
    pub open spec fn effective_cc(&self, n: NodeId) -> CcModel {
        match self.g().kind(n) {
            NodeKind::Call { cc: Some(id) } => self.ccs()[id.0 as int],
            _ => match self.tables().cc_of(n) {
                Some(cc) => cc,
                None => self.cc_default()@,
            },
        }
    }

    /// The convention in force at a node.
    pub fn get_cc(&self, node_id: NodeId) -> (r: &BuiltCallingConvention)
        requires
            self.g().has_node(node_id),
            self.g().kind(node_id) matches NodeKind::Call { cc: Some(id) } ==> id.0
                < self.ccs().len(),
        ensures
            r@ == self.effective_cc(node_id),
    {
        match *self.graph.node_kind(node_id) {
            NodeKind::Call { cc: Some(id) } => self.call_ccs.at(id.0),
            _ => match self.side_tables.call_cc(node_id) {
                Some(cc) => cc,
                None => &self.default_cc,
            },
        }
    }

    /// An override convention, if the id is one of this function.
    pub fn cc(&self, id: CcId) -> (r: Option<&BuiltCallingConvention>)
        ensures
            match r {
                Some(cc) => id.0 < self.ccs().len() && cc@ == self.ccs()[id.0 as int],
                None => id.0 >= self.ccs().len(),
            },
    {
        self.call_ccs.get(id.0)
    }

    /// Gives a call an override convention, in place of any before.
    pub fn set_call_cc(&mut self, call: NodeId, cc: BuiltCallingConvention)
        requires
            old(self).wf(),
            old(self).g().has_node(call),
            old(self).g().kind(call) is Call,
            old(self).ccs().len() < u32::MAX || old(self).ccs().contains(cc@),
        ensures
            final(self).wf(),
            final(self).ccs() == interned(old(self).ccs(), cc@),
            final(self).effective_cc(call) == cc@,
            exists|id: CcId|
                #![trigger final(self).ccs()[id.0 as int]]
                final(self).g() == old(self).g().with_kind(call, NodeKind::Call { cc: Some(id) }),
            final(self).entry_node() == old(self).entry_node(),
            final(self).tables() == old(self).tables(),
            final(self).consts() == old(self).consts(),
            final(self).vns() == old(self).vns(),
            final(self).switches() == old(self).switches(),
            final(self).cc_default() == old(self).cc_default(),
            final(self).endian() == old(self).endian(),
            forall|id: u64| #[trigger] final(self).op_name_of(id) == old(self).op_name_of(id),
    {
        let ghost g = self.g();
        let id = self.call_ccs.intern(cc);
        proof {
            self.graph.lemma_wf_valid();
            assert forall|key: Seq<u64>| #[trigger] g.cache.contains_key(key) implies g.cache[key]
                != call.0 by {
                assert(g.entry_ok(key));
            }
        }
        self.graph.set_kind(call, NodeKind::Call { cc: Some(CcId(id)) });
        proof {
            let x = CcId(id);
            assert(self.ccs()[x.0 as int] == cc@);
        }
    }

    /// The case addresses of a node: those recorded for it, or those of its
    /// switch table.
    pub open spec fn cases(&self, n: NodeId) -> Seq<u64> {
        if self.tables().targets_of(n).len() > 0 {
            self.tables().targets_of(n)
        } else {
            match self.g().kind(n) {
                NodeKind::Switch(id) => if id.0 < self.switches().len() {
                    self.switches()[id.0 as int]
                } else {
                    Seq::empty()
                },
                _ => Seq::empty(),
            }
        }
    }

    /// The case addresses of a node; none for a node that is no switch.
    pub fn switch_targets(&self, node_id: NodeId) -> (r: &[u64])
        requires
            self.g().has_node(node_id),
        ensures
            r@ == self.cases(node_id),
    {
        let recorded = self.side_tables.switch_targets(node_id);
        if recorded.len() > 0 {
            return recorded;
        }
        let empty: &[u64] = &[];
        assert(empty@ =~= Seq::<u64>::empty());
        match *self.graph.node_kind(node_id) {
            NodeKind::Switch(id) => match self.switch_table(id) {
                Some(t) => t,
                None => empty,
            },
            _ => empty,
        }
    }

    /// A switch table, if the id is one of this function.
    pub fn switch_table(&self, id: SwitchTableId) -> (r: Option<&[u64]>)
        ensures
            match r {
                Some(t) => id.0 < self.switches().len() && t@ == self.switches()[id.0 as int],
                None => id.0 >= self.switches().len(),
            },
    {
        if (id.0 as usize) < self.switch_tables.len() {
            Some(self.switch_tables.at(id).as_slice())
        } else {
            None
        }
    }

    /// Adds a table for a switch that is about to be created.
    pub fn add_switch_table(&mut self, targets: Vec<u64>) -> (r: SwitchTableId)
        requires
            old(self).wf(),
            old(self).switches().len() < u32::MAX,
        ensures
            final(self).wf(),
            r.0 == old(self).switches().len(),
            final(self).switches() == old(self).switches().push(targets@),
            final(self).gr() == old(self).gr(),
            final(self).entry_node() == old(self).entry_node(),
            final(self).tables() == old(self).tables(),
            final(self).consts() == old(self).consts(),
            final(self).vns() == old(self).vns(),
            final(self).ccs() == old(self).ccs(),
            final(self).cc_default() == old(self).cc_default(),
            final(self).endian() == old(self).endian(),
            forall|id: u64| #[trigger] final(self).op_name_of(id) == old(self).op_name_of(id),
    {
        self.switch_tables.push(targets)
    }

    /// The name of the user operation of a node.
    pub open spec fn user_op_name(&self, n: NodeId) -> Option<Seq<char>> {
        match self.g().kind(n) {
            NodeKind::CallOther { user_op_id } => match self.tables().name_of(n) {
                Some(name) => Some(name),
                None => self.op_name_of(user_op_id),
            },
            _ => None,
        }
    }

    /// The name of the user operation of a node: the one recorded for the
    /// node, or the one of the operation.
    pub fn call_other_name(&self, node_id: NodeId) -> (r: Option<&str>)
        requires
            self.wf(),
            self.g().has_node(node_id),
        ensures
            match r {
                Some(s) => self.user_op_name(node_id) == Some(s@),
                None => self.user_op_name(node_id) is None,
            },
    {
        match *self.graph.node_kind(node_id) {
            NodeKind::CallOther { user_op_id } => match self.side_tables.call_other_name(
                node_id,
            ) {
                Some(s) => Some(s),
                None => self.call_other_names.get(user_op_id),
            },
            _ => None,
        }
    }

    /// Names a user operation wherever it occurs.
    pub fn set_call_other_name(&mut self, user_op_id: u64, name: String)
        requires
            old(self).wf(),
        ensures
            final(self).wf(),
            forall|id: u64|
                #[trigger] final(self).op_name_of(id) == (if id == user_op_id {
                    Some(name@)
                } else {
                    old(self).op_name_of(id)
                }),
            final(self).gr() == old(self).gr(),
            final(self).entry_node() == old(self).entry_node(),
            final(self).tables() == old(self).tables(),
            final(self).consts() == old(self).consts(),
            final(self).vns() == old(self).vns(),
            final(self).switches() == old(self).switches(),
            final(self).ccs() == old(self).ccs(),
            final(self).cc_default() == old(self).cc_default(),
            final(self).endian() == old(self).endian(),
    {
        self.call_other_names.insert(user_op_id, name);
    }

    /// The base and offset of the stack slot a node accesses: the one recorded
    /// for the node, or else that of the address a load or store reads.
    pub open spec fn sp_offset(&self, n: NodeId) -> Option<(ValueId, i128)> {
        let kind = self.g().kind(n);
        match self.tables().slot_of(n) {
            Some(s) => Some((s.base, s.offset)),
            None => if (kind is Load || kind is Store) && self.g().ins(n).len() > 1 {
                match self.tables().place(self.g().ins(n)[1]) {
                    MemPlace::Stack(s) => Some((s.base, s.offset)),
                    _ => None,
                }
            } else {
                None
            },
        }
    }

    /// The base and offset of the stack slot a node accesses: the one recorded
    /// for the node, or else that of the address a load or store reads.
    /// Offsets compare only where the bases match.
    pub fn stack_offset(&self, node: NodeId) -> (r: Option<(ValueId, i128)>)
        requires
            self.wf(),
            self.g().has_node(node),
        ensures
            r == self.sp_offset(node),
    {
        if let Some(slot) = self.side_tables.stack_slot(node) {
            return Some((slot.base, slot.offset));
        }
        match *self.graph.node_kind(node) {
            NodeKind::Store(_) | NodeKind::Load(_) => {},
            _ => {
                return None;
            },
        }
        match self.graph.nth_input(node, 1) {
            None => None,
            Some(addr) => {
                let (class, slot) = self.side_tables.memory_decomp(addr);
                match class {
                    MemDecomp::Stack(_) => slot,
                    _ => None,
                }
            },
        }
    }

    // -- reading the graph -------------------------------------------------------------

    pub fn node_kind(&self, node: NodeId) -> (r: &NodeKind)
        requires
            self.g().has_node(node),
        ensures
            *r == self.g().kind(node),
    {
        self.graph.node_kind(node)
    }

    pub fn value_kind(&self, value: ValueId) -> (r: ValueKind)
        requires
            self.g().has_value(value),
        ensures
            r == self.g().value_kind(value),
    {
        self.graph.output_kind(value)
    }

    /// The type of a data value.
    pub fn value_type_opt(&self, value: ValueId) -> (r: Option<ValueType>)
        requires
            self.g().has_value(value),
        ensures
            r == self.g().value_kind(value).typed(),
    {
        self.graph.output_kind(value).as_value()
    }

    /// The node that defines a value.
    pub fn producer(&self, value: ValueId) -> (r: NodeId)
        requires
            self.wf(),
            self.g().has_value(value),
        ensures
            r == self.g().producer(value),
            self.g().has_node(r),
    {
        self.graph.get_node_from_output(value)
    }

    /// The kind of the node that defines a value.
    pub fn kind_of_value(&self, value: ValueId) -> (r: &NodeKind)
        requires
            self.wf(),
            self.g().has_value(value),
        ensures
            *r == self.g().kind(self.g().producer(value)),
    {
        self.graph.kind_of_output(value)
    }

    /// The node that defines a value, and the value's place among its outputs.
    pub fn value_definition(&self, value: ValueId) -> (r: (NodeId, u32))
        requires
            self.wf(),
            self.g().has_value(value),
        ensures
            r.0 == self.g().producer(value),
            r.1 == self.g().values[value.0 as int].index,
            self.g().has_node(r.0),
    {
        self.graph.output_definition(value)
    }

    pub fn node_outputs(&self, node: NodeId) -> (r: &[ValueId])
        requires
            self.wf(),
            self.g().has_node(node),
        ensures
            r@ == self.g().outs(node),
            forall|i: int| 0 <= i < r@.len() ==> self.g().has_value(#[trigger] r@[i]),
    {
        self.graph.node_outputs(node)
    }

    /// The outputs of a node that has exactly `N`.
    pub fn node_outputs_exact<const N: usize>(&self, node: NodeId) -> (r: Result<
        [ValueId; N],
        IrError,
    >)
        requires
            self.g().has_node(node),
        ensures
            r is Ok <==> self.g().outs(node).len() == N,
            r matches Ok(a) ==> a@ == self.g().outs(node),
            r matches Err(e) ==> e == (IrError::OutputCount {
                node,
                expected: N,
                actual: self.g().outs(node).len() as usize,
            }),
    {
        self.graph.node_outputs_exact::<N>(node)
    }

    pub fn node_inputs<'a>(&'a self, node: NodeId) -> (r: Inputs<'a>)
        requires
            self.wf(),
            self.g().has_node(node),
        ensures
            r.wf(),
            *r.graph == self.gr(),
            r@ == self.g().ins(node),
    {
        self.graph.node_inputs(node)
    }

    /// The value the `idx`-th input of a node reads.
    pub fn nth_input(&self, node: NodeId, idx: usize) -> (r: Option<ValueId>)
        requires
            self.wf(),
            self.g().has_node(node),
        ensures
            r == (if idx < self.g().ins(node).len() {
                Some(self.g().ins(node)[idx as int])
            } else {
                None
            }),
            r matches Some(v) ==> self.g().has_value(v),
    {
        self.graph.nth_input(node, idx)
    }

    /// The nodes reachable from the entry, nearest first.
    pub fn walk(&self) -> (r: Vec<NodeId>)
        requires
            self.wf(),
        ensures
            r@ == walk_order(self.g(), self.entry_node()),
            r@.len() > 0,
            r@[0] == self.entry_node(),
            r@.no_duplicates(),
            forall|i: int| 0 <= i < r@.len() ==> self.g().has_node(#[trigger] r@[i]),
            forall|n: NodeId|
                #[trigger] r@.contains(n) <==> reachable(self.g(), self.entry_node(), n),
    {
        self.graph.walk_from(self.entry)
    }

    /// The first data output of a node, from position `i` on.
    pub open spec fn first_typed_from(&self, n: NodeId, i: int) -> Option<ValueId>
        decreases self.g().outs(n).len() - i,
    {
        if i < 0 || i >= self.g().outs(n).len() {
            None
        } else if self.g().value_kind(self.g().outs(n)[i]) is Typed {
            Some(self.g().outs(n)[i])
        } else {
            self.first_typed_from(n, i + 1)
        }
    }

    /// The first data output of a node.
    pub fn first_value_output_of(&self, node: NodeId) -> (r: Option<ValueId>)
        requires
            self.wf(),
            self.g().has_node(node),
        ensures
            r == self.first_typed_from(node, 0),
            r matches Some(v) ==> self.g().has_value(v) && self.g().value_kind(v) is Typed,
    {
        let outs = self.node_outputs(node);
        let mut i: usize = 0;
        while i < outs.len()
            invariant
                self.wf(),
                outs@ == self.g().outs(node),
                forall|k: int| 0 <= k < outs@.len() ==> self.g().has_value(#[trigger] outs@[k]),
                i <= outs.len(),
                self.first_typed_from(node, 0) == self.first_typed_from(node, i as int),
            decreases outs.len() - i,
        {
            if self.value_type_opt(outs[i]).is_some() {
                return Some(outs[i]);
            }
            i += 1;
        }
        None
    }

    /// The constant a node is, where it is one of this function.
    pub open spec fn const_of(&self, n: NodeId) -> Option<ConstModel> {
        match self.g().kind(n) {
            NodeKind::IntConst(id) => if id.0 < self.consts().len() {
                Some(self.consts()[id.0 as int])
            } else {
                None
            },
            _ => None,
        }
    }

    /// The number an integer constant is, where 128 bits hold it.
    pub fn int_const_u128(&self, value: ValueId) -> (r: Option<u128>)
        requires
            self.wf(),
            self.g().has_value(value),
        ensures
            r == (match self.const_of(self.g().producer(value)) {
                Some(c) => if const_number(c) <= u128::MAX {
                    Some(const_number(c) as u128)
                } else {
                    None
                },
                None => None,
            }),
    {
        match *self.kind_of_value(value) {
            NodeKind::IntConst(id) => match self.const_interner.get(id.0) {
                Some(c) => c.fits_u128(),
                None => None,
            },
            _ => None,
        }
    }

    // -- building ----------------------------------------------------------------------

    /// Creates a node, or finds the one of its structure, and adds the
    /// fingerprints of all contributors to it.
    pub fn create_node_attributed(
        &mut self,
        kind: NodeKind,
        inputs: &[ValueId],
        output_kinds: &[ValueKind],
        contributors: &[NodeId],
    ) -> (r: NodeId)
        requires
            old(self).wf(),
            forall|i: int|
                0 <= i < inputs@.len() ==> old(self).g().has_value(#[trigger] inputs@[i]),
            old(self).g().has_room(1, inputs@.len() as int, output_kinds@.len() as int),
        ensures
            final(self).wf(),
            r == old(self).g().created_id(kind, inputs@, output_kinds@),
            final(self).g() == old(self).g().created(kind, inputs@, output_kinds@),
            final(self).g().extends(old(self).g()),
            final(self).g().has_node(r),
            final(self).g().kind(r) == kind,
            final(self).g().ins(r) == inputs@,
            final(self).g().out_kinds(r) == output_kinds@,
            final(self).entry_node() == old(self).entry_node(),
            final(self).same_payloads(old(self)),
            final(self).tables().same_except(&old(self).tables(), Table::Fingerprints),
            forall|n: NodeId|
                n != r ==> #[trigger] final(self).tables().fingerprint(n) == old(self).tables().fingerprint(n),
            forall|a: u64|
                #[trigger] final(self).tables().fingerprint(r).contains(a) <==> old(self).tables().fingerprint(r).contains(a) || exists|i: int|
                    0 <= i < contributors@.len() && old(self).tables().fingerprint(
                        #[trigger] contributors@[i],
                    ).contains(a),
    {
        let r = self.graph.create_node(kind, inputs, output_kinds);
        let ghost t0 = self.side_tables;
        proof {
            t0.lemma_same_except_refl(Table::Fingerprints);
        }
        let mut i: usize = 0;
        while i < contributors.len()
            invariant
                i <= contributors.len(),
                self.side_tables.wf(),
                t0.wf(),
                self.graph.wf(),
                self.graph@ == old(self).g().created(kind, inputs@, output_kinds@),
                self.entry == old(self).entry,
                self.default_cc == old(self).default_cc,
                self.endianness == old(self).endianness,
                self.vn_interner == old(self).vn_interner,
                self.const_interner == old(self).const_interner,
                self.switch_tables == old(self).switch_tables,
                self.call_ccs == old(self).call_ccs,
                self.call_other_names == old(self).call_other_names,
                self.side_tables.same_except(&t0, Table::Fingerprints),
                forall|n: NodeId|
                    n != r ==> #[trigger] self.side_tables.fingerprint(n) == t0.fingerprint(n),
                forall|a: u64|
                    #[trigger] self.side_tables.fingerprint(r).contains(a) <==> t0.fingerprint(
                        r,
                    ).contains(a) || exists|k: int|
                        0 <= k < i && t0.fingerprint(#[trigger] contributors@[k]).contains(a),
            decreases contributors.len() - i,
        {
            let ghost before = self.side_tables;
            let src = contributors[i];
            self.side_tables.extend_asm_fingerprint_from(r, src);
            proof {
                SideTables::lemma_same_except_trans(
                    &self.side_tables,
                    &before,
                    &t0,
                    Table::Fingerprints,
                );
                assert forall|a: u64| #[trigger] self.side_tables.fingerprint(r).contains(a)
                    <==> t0.fingerprint(r).contains(a) || exists|k: int|
                    0 <= k < i + 1 && t0.fingerprint(#[trigger] contributors@[k]).contains(a) by {
                    if before.fingerprint(r).contains(a) && !t0.fingerprint(r).contains(a) {
                        let k = choose|k: int|
                            0 <= k < i && t0.fingerprint(#[trigger] contributors@[k]).contains(a);
                        assert(t0.fingerprint(contributors@[k]).contains(a));
                    }
                    if src != r {
                        assert(before.fingerprint(src) == t0.fingerprint(src));
                    }
                    if t0.fingerprint(src).contains(a) {
                        assert(t0.fingerprint(contributors@[i as int]).contains(a));
                    }
                    if exists|k: int|
                        0 <= k < i + 1 && t0.fingerprint(#[trigger] contributors@[k]).contains(a) {
                        let k = choose|k: int|
                            0 <= k < i + 1 && t0.fingerprint(#[trigger] contributors@[k]).contains(
                                a,
                            );
                        if k < i {
                            assert(t0.fingerprint(contributors@[k]).contains(a));
                            assert(before.fingerprint(r).contains(a));
                        } else {
                            assert(contributors@[k] == src);
                        }
                    }
                }
            }
            i += 1;
        }
        r
    }

    /// An independent copy: the same graph under the same ids, tables that
    /// give the same answers, and the same payloads.
    pub fn duplicate(&self) -> (r: Function)
        requires
            self.wf(),
        ensures
            r.wf(),
            r.g() == self.g(),
            r.entry_node() == self.entry_node(),
            r.tables().agrees(&self.tables()),
            r.cc_default()@ == self.cc_default()@,
            r.endian() == self.endian(),
            r.vns() == self.vns(),
            r.consts() == self.consts(),
            r.switches() == self.switches(),
            r.ccs() == self.ccs(),
            forall|id: u64| #[trigger] r.op_name_of(id) == self.op_name_of(id),
    {
        let mut switch_tables = SwitchTableArena::new();
        let count = self.switch_tables.len();
        let mut i: usize = 0;
        while i < count
            invariant
                i <= count == self.switch_tables@.len(),
                count <= u32::MAX,
                switch_tables@ == self.switch_tables@.take(i as int),
            decreases count - i,
        {
            let table = self.switch_tables.at(SwitchTableId(i as u32));
            let copy = Alike::duplicate(table);
            switch_tables.push(copy);
            i += 1;
            assert(switch_tables@ =~= self.switch_tables@.take(i as int));
        }
        assert(switch_tables@ =~= self.switch_tables@);
        Function {
            graph: self.graph.duplicate(),
            entry: self.entry,
            default_cc: self.default_cc.duplicate(),
            endianness: self.endianness,
            vn_interner: self.vn_interner.duplicate(),
            side_tables: self.side_tables.duplicate(),
            const_interner: self.const_interner.duplicate(),
            switch_tables,
            call_ccs: self.call_ccs.duplicate(),
            call_other_names: self.call_other_names.duplicate(),
        }
    }

    /// Makes a node the entry.
    pub fn set_entry(&mut self, entry: NodeId)
        requires
            old(self).wf(),
            old(self).g().has_node(entry),
        ensures
            final(self).wf(),
            final(self).entry_node() == entry,
            final(self).gr() == old(self).gr(),
            final(self).tables() == old(self).tables(),
            final(self).same_payloads(old(self)),
    {
        self.entry = entry;
    }

    /// The node of a varnode's initial value.
    pub fn initial_var_for(&self, vn: Vn) -> (r: Option<NodeId>)
        requires
            self.wf(),
        ensures
            r == (match self.vn_index(vn) {
                Some(id) => self.tables().initial_var(id),
                None => None,
            }),
    {
        proof {
            self.lemma_wf();
        }
        match self.vn_id_of(&vn) {
            Some(id) => {
                proof {
                    assert(self.vns()[id.0 as int] == vn);
                    assert(self.vns().contains(vn));
                    let x = self.vns().index_of(vn);
                    assert(self.vns()[x] == self.vns()[id.0 as int]);
                }
                self.side_tables.initial_var_node(id)
            },
            None => None,
        }
    }

    /// Records the node of a tracked varnode's initial value; nothing if it is
    /// not tracked.
    pub fn register_initial_var(&mut self, vn: Vn, node: NodeId)
        requires
            old(self).wf(),
        ensures
            final(self).wf(),
            final(self).gr() == old(self).gr(),
            final(self).entry_node() == old(self).entry_node(),
            final(self).same_payloads(old(self)),
            final(self).tables().same_except(&old(self).tables(), Table::InitialVars),
            match old(self).vn_index(vn) {
                Some(id) => forall|k: InitialVnId| #[trigger]
                    final(self).tables().initial_var(k) == (if k == id {
                        Some(node)
                    } else {
                        old(self).tables().initial_var(k)
                    }),
                None => *final(self) == *old(self),
            },
    {
        proof {
            self.lemma_wf();
            self.side_tables.lemma_same_except_refl(Table::InitialVars);
        }
        match self.vn_id_of(&vn) {
            Some(id) => {
                proof {
                    assert(self.vns()[id.0 as int] == vn);
                    assert(self.vns().contains(vn));
                    let x = self.vns().index_of(vn);
                    assert(self.vns()[x] == self.vns()[id.0 as int]);
                }
                self.side_tables.set_initial_var_node(id, node);
            },
            None => {},
        }
    }

    /// Records that a node accesses the stack `offset` bytes from `base`, in
    /// place of any slot recorded for it before.
    pub fn set_stack_offset(&mut self, id: NodeId, base: ValueId, offset: i64)
        requires
            old(self).wf(),
        ensures
            final(self).wf(),
            final(self).gr() == old(self).gr(),
            final(self).entry_node() == old(self).entry_node(),
            final(self).same_payloads(old(self)),
            final(self).tables().same_except(&old(self).tables(), Table::StackOffsets),
            final(self).sp_offset(id) == Some((base, offset as i128)),
            forall|n: NodeId|
                n != id ==> #[trigger] final(self).sp_offset(n) == old(self).sp_offset(n),
            forall|n: NodeId|
                #[trigger] final(self).tables().slot_of(n) == (if n == id {
                    Some(MemSlot { base, offset: offset as i128 })
                } else {
                    old(self).tables().slot_of(n)
                }),
    {
        self.side_tables.set_node_stack_slot(id, base, offset as i128);
        proof {
            self.side_tables.lemma_same_except(&old(self).side_tables, Table::StackOffsets);
            assert forall|n: NodeId| n != id implies #[trigger] self.sp_offset(n) == old(
                self,
            ).sp_offset(n) by {
                assert(self.tables().slot_of(n) == old(self).tables().slot_of(n));
                if self.g().ins(n).len() > 1 {
                    let v = self.g().ins(n)[1];
                    assert(self.tables().decomp(v) == old(self).tables().decomp(v));
                }
            }
        }
    }

    /// The stack arguments of the convention recorded for a call.
    pub fn call_stack_args_override(&self, node_id: NodeId) -> (r: Option<StackArgs>)
        ensures
            r == (match self.tables().cc_of(node_id) {
                Some(cc) => cc.stack_args,
                None => None,
            }),
    {
        match self.side_tables.call_cc(node_id) {
            Some(cc) => cc.stack_args,
            None => None,
        }
    }

    // -- changing the graph in place -----------------------------------------------------

    /// Two functions agree in everything beside the graph and the
    /// fingerprints.
    pub open spec fn same_but_graph(&self, other: &Function) -> bool {
        &&& self.entry_node() == other.entry_node()
        &&& self.same_payloads(other)
        &&& self.tables().same_except(&other.tables(), Table::Fingerprints)
    }

    pub(crate) fn detach_node_inputs(&mut self, node: NodeId)
        requires
            old(self).wf(),
            old(self).g().has_node(node),
        ensures
            final(self).wf(),
            final(self).g() == old(self).g().detached(node),
            final(self).tables() == old(self).tables(),
            final(self).same_but_graph(old(self)),
    {
        proof {
            self.lemma_wf();
            crate::graph::model::lemma_detached_valid(self.g(), node);
            self.side_tables.lemma_same_except_refl(Table::Fingerprints);
        }
        self.graph.detach_node_inputs(node);
    }

    pub(crate) fn update_input(&mut self, input: UseId, value: ValueId)
        requires
            old(self).wf(),
            old(self).g().has_use(input),
            old(self).g().attached(input),
            old(self).g().has_value(value),
        ensures
            final(self).wf(),
            final(self).g() == old(self).g().redirected(input, value),
            final(self).tables() == old(self).tables(),
            final(self).same_but_graph(old(self)),
    {
        proof {
            self.lemma_wf();
            crate::graph::model::lemma_redirected_valid(self.g(), input, value);
            self.side_tables.lemma_same_except_refl(Table::Fingerprints);
        }
        self.graph.update_input(input, value);
    }

    pub(crate) fn replace_all_uses(&mut self, old_value: ValueId, new_value: ValueId) -> (r: bool)
        requires
            old(self).wf(),
            old(self).g().has_value(old_value),
            old(self).g().has_value(new_value),
        ensures
            final(self).wf(),
            old_value == new_value ==> !r && final(self).g() == old(self).g(),
            old_value != new_value ==> r == (old(self).g().readers(old_value).len() > 0)
                && final(self).g() == old(self).g().redirected_all(
                old(self).g().readers(old_value),
                new_value,
            ) && final(self).g().readers(old_value).len() == 0,
            final(self).g().nodes == old(self).g().nodes,
            final(self).g().values == old(self).g().values,
            final(self).g().uses.len() == old(self).g().uses.len(),
            final(self).tables() == old(self).tables(),
            final(self).same_but_graph(old(self)),
    {
        proof {
            self.side_tables.lemma_same_except_refl(Table::Fingerprints);
        }
        self.graph.replace_all_uses(old_value, new_value)
    }

    pub(crate) fn canonicalize_node(&mut self, node: NodeId) -> (r: Option<NodeId>)
        requires
            old(self).wf(),
            old(self).g().has_node(node),
        ensures
            final(self).wf(),
            ({
                let g = old(self).g();
                let hit = g.kind(node).cacheable() && g.cache.contains_key(g.key(node));
                if hit {
                    &&& final(self).g() == g
                    &&& r == (if g.cache[g.key(node)] == node.0 {
                        None
                    } else {
                        Some(NodeId(g.cache[g.key(node)]))
                    })
                } else {
                    &&& r == None::<NodeId>
                    &&& final(self).g() == (if g.kind(node).cacheable() {
                        g.cached(node)
                    } else {
                        g
                    })
                }
            }),
            r matches Some(twin) ==> {
                &&& final(self).g().has_node(twin)
                &&& final(self).g().kind(twin) == final(self).g().kind(node)
                &&& final(self).g().ins(twin) == final(self).g().ins(node)
                &&& final(self).g().out_kinds(twin) == final(self).g().out_kinds(node)
            },
            final(self).tables() == old(self).tables(),
            final(self).same_but_graph(old(self)),
    {
        proof {
            self.side_tables.lemma_same_except_refl(Table::Fingerprints);
        }
        self.graph.canonicalize_node(node)
    }

    pub(crate) fn add_node_input(&mut self, node: NodeId, value: ValueId) -> (r: Result<
        (),
        IrError,
    >)
        requires
            old(self).wf(),
            old(self).g().has_node(node),
            old(self).g().has_value(value),
            old(self).g().has_room(0, 1, 0),
        ensures
            final(self).wf(),
            old(self).g().kind(node).cacheable() ==> r == Err::<(), IrError>(
                IrError::AddToCacheable { node },
            ) && final(self).g() == old(self).g(),
            !old(self).g().kind(node).cacheable() ==> r is Ok && final(self).g()
                == old(self).g().with_input(node, value),
            final(self).tables() == old(self).tables(),
            final(self).same_but_graph(old(self)),
    {
        proof {
            self.side_tables.lemma_same_except_refl(Table::Fingerprints);
        }
        self.graph.add_node_input(node, value)
    }

    pub(crate) fn remove_node_inputs_batch(&mut self, node: NodeId, indices: &[usize])
        requires
            old(self).wf(),
            old(self).g().has_node(node),
            !old(self).g().kind(node).cacheable(),
        ensures
            final(self).wf(),
            final(self).g() == old(self).g().without_inputs_from(node, indices@, 0),
            final(self).g().ins(node) == kept_from(old(self).g().ins(node), indices@, 0),
            final(self).g().values == old(self).g().values,
            final(self).g().nodes.len() == old(self).g().nodes.len(),
            final(self).g().kind(node) == old(self).g().kind(node),
            forall|m: int|
                0 <= m < old(self).g().nodes.len() && m != node.0 ==> #[trigger] final(self).g().nodes[m]
                    == old(self).g().nodes[m],
            final(self).tables() == old(self).tables(),
            final(self).same_but_graph(old(self)),
    {
        proof {
            self.side_tables.lemma_same_except_refl(Table::Fingerprints);
        }
        self.graph.remove_node_inputs_batch(node, indices);
    }

    /// Adds a carrier of the `index`-th integer argument.
    pub fn register_arg_value(&mut self, index: u32, value: ValueId)
        requires
            old(self).wf(),
        ensures
            final(self).wf(),
            final(self).gr() == old(self).gr(),
            final(self).entry_node() == old(self).entry_node(),
            final(self).same_payloads(old(self)),
            final(self).tables().same_except(&old(self).tables(), Table::Args),
            forall|c: ArgClass, i: u32| #[trigger]
                final(self).tables().carriers(c, i) == (if c == ArgClass::Integer && i == index {
                    old(self).tables().carriers(c, i).push(value)
                } else {
                    old(self).tables().carriers(c, i)
                }),
    {
        self.side_tables.register_arg_value(index, value);
    }

    /// Adds the fingerprint of `from` to that of `into`.
    pub(crate) fn absorb_fingerprint(&mut self, into: NodeId, from: NodeId)
        requires
            old(self).wf(),
        ensures
            final(self).wf(),
            final(self).g() == old(self).g(),
            final(self).same_but_graph(old(self)),
            forall|n: NodeId|
                n != into ==> #[trigger] final(self).tables().fingerprint(n)
                    == old(self).tables().fingerprint(n),
            forall|a: u64| #[trigger]
                final(self).tables().fingerprint(into).contains(a)
                    <==> old(self).tables().fingerprint(into).contains(a)
                    || old(self).tables().fingerprint(from).contains(a),
    {
        self.side_tables.extend_asm_fingerprint_from(into, from);
    }

    /// An integer constant of the given type, as a value of the graph.
    pub fn build_int_const(&mut self, value: u128, ty: ValueType) -> (r: Result<ValueId, IrError>)
        requires
            old(self).wf(),
            old(self).consts().len() < u32::MAX,
            old(self).g().has_room(1, 0, 1),
        ensures
            final(self).wf(),
            !ty.integer() ==> r == Err::<ValueId, IrError>(IrError::NotAnInteger) && *final(self)
                == *old(self),
            ty.integer() ==> {
                &&& r matches Ok(v) && final(self).g().has_value(v)
                    && final(self).g().value_kind(v) == ValueKind::Typed(ty)
                    && final(self).const_of(final(self).g().producer(v)) == Some(
                    ConstModel::Bits(value & ty.mask()),
                )
                &&& exists|id: ConstId|
                    #![trigger final(self).consts()[id.0 as int]]
                    {
                        let g = old(self).g();
                        let none = Seq::<ValueId>::empty();
                        let kind = NodeKind::IntConst(id);
                        let outs = seq![ValueKind::Typed(ty)];
                        &&& final(self).consts()[id.0 as int] == ConstModel::Bits(value & ty.mask())
                        &&& final(self).g() == g.created(kind, none, outs)
                        &&& final(self).g().producer(r->Ok_0) == g.created_id(kind, none, outs)
                    }
                &&& final(self).g().extends(old(self).g())
                &&& final(self).consts() == interned(
                    old(self).consts(),
                    ConstModel::Bits(value & ty.mask()),
                )
                &&& final(self).entry_node() == old(self).entry_node()
                &&& final(self).tables() == old(self).tables()
                &&& final(self).cc_default() == old(self).cc_default()
                &&& final(self).endian() == old(self).endian()
                &&& final(self).vns() == old(self).vns()
                &&& final(self).switches() == old(self).switches()
                &&& final(self).ccs() == old(self).ccs()
            },
    {
        if !ty.is_integer() {
            return Err(IrError::NotAnInteger);
        }
        let id = self.intern_int_const(value, ty);
        let inputs: [ValueId; 0] = [];
        let outputs: [ValueKind; 1] = [ValueKind::Typed(ty)];
        let n = self.graph.create_node(NodeKind::IntConst(id), &inputs, &outputs);
        proof {
            self.graph.lemma_wf_valid();
            assert(inputs@ =~= Seq::<ValueId>::empty());
            assert(outputs@ =~= seq![ValueKind::Typed(ty)]);
            assert(self.consts()[id.0 as int] == ConstModel::Bits(value & ty.mask()));
            assert(self.g().out_kinds(n).len() == 1);
            assert(self.g().out_kinds(n)[0] == ValueKind::Typed(ty));
            assert(self.g().output_ok(n.0 as int, 0)) by {
                assert(self.g().nodes[n.0 as int].outputs[0] == self.g().outs(n)[0]);
            }
        }
        let outs = self.graph.node_outputs(n);
        Ok(outs[0])
    }

    // -- compaction ----------------------------------------------------------------------

    /// The payload ids of a node are ids of this function.
    pub open spec fn payload_ok(&self, kind: NodeKind) -> bool {
        match kind {
            NodeKind::IntConst(id) => id.0 < self.consts().len(),
            NodeKind::Switch(id) => id.0 < self.switches().len(),
            NodeKind::Call { cc: Some(id) } => id.0 < self.ccs().len(),
            _ => true,
        }
    }

    /// What the payload ids of the function stand for.
    pub open spec fn payloads(&self) -> Payloads {
        Payloads { consts: self.consts(), switches: self.switches(), ccs: self.ccs() }
    }

    /// Rebuilds the constants, the switch tables and the conventions over what
    /// the nodes refer to, and gives every node its new payload id.
    #[verifier::rlimit(40)]
    fn gc_payload_tables(&mut self)
        requires
            old(self).wf(),
            old(self).g().cache.is_empty(),
            forall|n: NodeId|
                old(self).g().has_node(n) ==> old(self).payload_ok(#[trigger] old(self).g().kind(n)),
        ensures
            final(self).wf(),
            same_shape(old(self).g(), final(self).g()),
            final(self).g().cache.is_empty(),
            forall|n: NodeId|
                old(self).g().has_node(n) ==> same_meaning(
                    old(self).payloads(),
                    #[trigger] old(self).g().kind(n),
                    final(self).payloads(),
                    final(self).g().kind(n),
                ),
            all_referenced(final(self).g(), final(self).g().nodes.len() as int, final(self).payloads()),
            final(self).entry_node() == old(self).entry_node(),
            final(self).tables() == old(self).tables(),
            final(self).vns() == old(self).vns(),
            final(self).cc_default() == old(self).cc_default(),
            final(self).endian() == old(self).endian(),
            forall|id: u64| #[trigger] final(self).op_name_of(id) == old(self).op_name_of(id),
    {
        let ghost was = *self;
        let ghost g0 = self.g();
        let ghost p0 = self.payloads();
        let mut consts: EntityInterner<ConstValue> = EntityInterner::new();
        let mut tables = SwitchTableArena::new();
        let mut ccs: EntityInterner<BuiltCallingConvention> = EntityInterner::new();
        let mut table_ids: Vec<Option<SwitchTableId>> = Vec::new();
        let table_count = self.switch_tables.len();
        let mut k: usize = 0;
        while k < table_count
            invariant
                k <= table_count,
                table_ids@.len() == k,
                forall|x: int| 0 <= x < k ==> (#[trigger] table_ids@[x]) is None,
            decreases table_count - k,
        {
            table_ids.push(None);
            k += 1;
        }
        let len = self.graph.node_count();
        proof {
            self.graph.lemma_wf_valid();
        }
        let mut i: usize = 0;
        while i < len
            invariant
                was.wf(),
                g0 == was.g(),
                p0 == was.payloads(),
                g0.cache.is_empty(),
                len == g0.nodes.len(),
                len <= u32::MAX,
                i <= len,
                forall|n: NodeId| g0.has_node(n) ==> was.payload_ok(#[trigger] g0.kind(n)),
                self.graph.wf(),
                same_shape(g0, self.graph@),
                self.graph@.cache.is_empty(),
                self.entry == was.entry,
                self.default_cc == was.default_cc,
                self.endianness == was.endianness,
                self.vn_interner == was.vn_interner,
                self.side_tables == was.side_tables,
                self.const_interner == was.const_interner,
                self.switch_tables == was.switch_tables,
                self.call_ccs == was.call_ccs,
                self.call_other_names == was.call_other_names,
                consts.wf(),
                ccs.wf(),
                consts@.len() <= i,
                tables@.len() <= i,
                ccs@.len() <= i,
                forall|n: int|
                    #![trigger self.graph@.nodes[n]]
                    i <= n < len ==> self.graph@.nodes[n].kind == g0.nodes[n].kind,
                forall|n: int|
                    #![trigger self.graph@.nodes[n]]
                    0 <= n < i ==> same_meaning(
                        p0,
                        g0.nodes[n].kind,
                        Payloads { consts: consts@, switches: tables@, ccs: ccs@ },
                        self.graph@.nodes[n].kind,
                    ),
                all_referenced(
                    self.graph@,
                    i as int,
                    Payloads { consts: consts@, switches: tables@, ccs: ccs@ },
                ),
                table_ids@.len() == p0.switches.len(),
                forall|x: int|
                    #![trigger table_ids@[x]]
                    0 <= x < table_ids@.len() ==> match table_ids@[x] {
                        Some(t) => t.0 < tables@.len() && tables@[t.0 as int] == p0.switches[x],
                        None => true,
                    },
            decreases len - i,
        {
            let node = NodeId(i as u32);
            let ghost g1 = self.graph@;
            let ghost before = Payloads { consts: consts@, switches: tables@, ccs: ccs@ };
            let kind = *self.graph.node_kind(node);
            proof {
                assert(g1.nodes[i as int].kind == g0.nodes[i as int].kind);
                assert(g0.kind(node) == kind);
                assert(was.payload_ok(g0.kind(node)));
            }
            let new_kind = match kind {
                NodeKind::IntConst(id) => {
                    let copy = self.const_interner.at(id.0).duplicate();
                    let new_id = consts.intern(copy);
                    NodeKind::IntConst(ConstId(new_id))
                },
                NodeKind::Switch(id) => {
                    match table_ids[id.0 as usize] {
                        Some(t) => NodeKind::Switch(t),
                        None => {
                            let copy = copy_words(self.switch_tables.at(id));
                            let t = tables.push(copy);
                            table_ids.set(id.0 as usize, Some(t));
                            NodeKind::Switch(t)
                        },
                    }
                },
                NodeKind::Call { cc: Some(id) } => {
                    let copy = self.call_ccs.at(id.0).duplicate();
                    let new_id = ccs.intern(copy);
                    NodeKind::Call { cc: Some(CcId(new_id)) }
                },
                other => other,
            };
            proof {
                assert forall|key: Seq<u64>| #[trigger]
                    g1.cache.contains_key(key) implies g1.cache[key] != node.0 by {
                    assert(g1.cache.dom().contains(key));
                }
            }
            self.graph.set_kind(node, new_kind);
            proof {
                let after = Payloads { consts: consts@, switches: tables@, ccs: ccs@ };
                assert(before.is_prefix_of(after));
                assert(same_meaning(p0, g0.nodes[i as int].kind, after, new_kind));
                assert forall|n: int|
                    #![trigger self.graph@.nodes[n]]
                    0 <= n < i + 1 implies same_meaning(
                    p0,
                    g0.nodes[n].kind,
                    after,
                    self.graph@.nodes[n].kind,
                ) by {
                    if n < i {
                        assert(self.graph@.nodes[n].kind == g1.nodes[n].kind);
                        lemma_meaning_stays(
                            p0,
                            g0.nodes[n].kind,
                            before,
                            after,
                            g1.nodes[n].kind,
                        );
                    }
                }
                assert(all_referenced(self.graph@, i + 1, after)) by {
                    lemma_referenced_step(g1, self.graph@, node, new_kind, before, after);
                }
                assert forall|n: int| 0 <= n < len implies (
                #[trigger] g0.nodes[n]).inputs == self.graph@.nodes[n].inputs
                    && g0.nodes[n].outputs == self.graph@.nodes[n].outputs by {
                    assert(g1.nodes[n].inputs == g0.nodes[n].inputs);
                }
                assert forall|n: int|
                    #![trigger self.graph@.nodes[n]]
                    i + 1 <= n < len implies self.graph@.nodes[n].kind == g0.nodes[n].kind by {
                    assert(g1.nodes[n].kind == g0.nodes[n].kind);
                }
            }
            i += 1;
        }
        self.const_interner = consts;
        self.switch_tables = tables;
        self.call_ccs = ccs;
        proof {
            self.graph.lemma_wf_valid();
            assert forall|n: NodeId| g0.has_node(n) implies same_meaning(
                p0,
                #[trigger] g0.kind(n),
                self.payloads(),
                self.g().kind(n),
            ) by {
                assert(self.graph@.nodes[n.0 as int].kind == self.g().kind(n));
            }
        }
    }

    /// Cuts the function down to what is reachable from its entry. Every id is
    /// numbered anew; the result says where each went.
    pub fn compact(&mut self) -> (r: Result<NodeIdRemap, IrError>)
        requires
            old(self).wf(),
            forall|n: NodeId|
                reachable(old(self).g(), old(self).entry_node(), n) ==> old(self).payload_ok(
                    #[trigger] old(self).g().kind(n),
                ),
        ensures
            final(self).wf(),
            r is Ok,
            r matches Ok(remap) ==> {
                &&& compacted(old(self), final(self), &remap)
                &&& forall|n: NodeId|
                    (#[trigger] remap.node(n)) is Some <==> reachable(
                        old(self).g(),
                        old(self).entry_node(),
                        n,
                    )
                &&& remap.node(old(self).entry_node()) == Some(final(self).entry_node())
                &&& remapped(&old(self).tables(), &final(self).tables(), &remap)
            },
            final(self).entry_node().0 == 0,
            final(self).vns() == old(self).vns(),
            final(self).cc_default() == old(self).cc_default(),
            final(self).endian() == old(self).endian(),
            forall|id: u64| #[trigger] final(self).op_name_of(id) == old(self).op_name_of(id),
            all_referenced(
                final(self).g(),
                final(self).g().nodes.len() as int,
                final(self).payloads(),
            ),
    {
        let ghost was = *self;
        let ghost g = self.g();
        let entry = self.entry;
        let order = self.graph.walk_from(entry);
        proof {
            self.graph.lemma_wf_valid();
            lemma_walk_closed(g, entry, order@);
        }
        let remap = self.graph.retain(&order);
        let ghost h = self.graph@;
        proof {
            lemma_retained_injective(g, h, order@, &remap);
            assert(remap.node(order@[0]) == Some(NodeId(0)));
        }
        let new_entry = remap.node_old_to_new(entry);
        self.side_tables.remap(&remap);
        self.entry = NodeId(0);
        proof {
            assert forall|n: NodeId| h.has_node(n) implies self.payload_ok(
                #[trigger] h.kind(n),
            ) by {
                let o = order@[n.0 as int];
                assert(crate::graph::compact::kept_node(g, h, o, NodeId(n.0 as int as u32), &remap));
                assert(order@.contains(o));
                assert(was.payload_ok(g.kind(o)));
            }
        }
        let ghost mid = *self;
        self.gc_payload_tables();
        let ghost h2 = self.graph@;
        let ghost gced = *self;
        self.graph.rebuild_cache();
        proof {
            let fin = self.g();
            assert(fin == h2.recached());
            assert(fin.nodes == h2.nodes);
            assert forall|id: u64| #[trigger] self.op_name_of(id) == was.op_name_of(id) by {
                assert(gced.op_name_of(id) == mid.op_name_of(id));
            }
            lemma_cache_of_first_same(h2, fin, h2.nodes.len());
            assert(same_shape(h, fin)) by {
                assert(same_shape(h, h2));
            }
            assert(compaction_of(&was, self, &remap, order@, h)) by {
                assert forall|k: int| 0 <= k < order@.len() implies same_meaning(
                    was.payloads(),
                    g.kind(#[trigger] order@[k]),
                    self.payloads(),
                    fin.kind(NodeId(k as u32)),
                ) by {
                    assert(crate::graph::compact::kept_node(
                        g,
                        h,
                        order@[k],
                        NodeId(k as u32),
                        &remap,
                    ));
                    assert(mid.g().kind(NodeId(k as u32)) == h.kind(NodeId(k as u32)));
                    assert(h2.nodes[k].kind == fin.kind(NodeId(k as u32)));
                }
            }
            assert(compacted(&was, self, &remap));
            lemma_referenced_cache(h2, fin, h2.nodes.len() as int, self.payloads());
            assert forall|n: NodeId| (#[trigger] remap.node(n)) is Some <==> reachable(
                g,
                entry,
                n,
            ) by {
                if reachable(g, entry, n) {
                    assert(order@.contains(n));
                    let k = order@.index_of(n);
                    assert(remap.node(order@[k]) == Some(NodeId(k as u32)));
                }
                if remap.node(n) is Some {
                    assert(order@.contains(n));
                }
            }
        }
        match new_entry {
            Some(e) => Ok(remap),
            None => {
                assert(false);
                Err(IrError::EntryMissing { node: entry })
            },
        }
    }
}

/// What payload ids stand for.
pub struct Payloads {
    pub consts: Seq<ConstModel>,
    pub switches: Seq<Seq<u64>>,
    pub ccs: Seq<CcModel>,
}

impl Payloads {
    /// Ids mean in `other` what they mean here.
    pub open spec fn is_prefix_of(self, other: Payloads) -> bool {
        &&& self.consts.len() <= other.consts.len()
        &&& self.switches.len() <= other.switches.len()
        &&& self.ccs.len() <= other.ccs.len()
        &&& forall|i: int|
            0 <= i < self.consts.len() ==> #[trigger] other.consts[i] == self.consts[i]
        &&& forall|i: int|
            0 <= i < self.switches.len() ==> #[trigger] other.switches[i] == self.switches[i]
        &&& forall|i: int| 0 <= i < self.ccs.len() ==> #[trigger] other.ccs[i] == self.ccs[i]
    }
}

/// Kind `a` with payloads `p` and kind `b` with payloads `q` mean the same.
pub open spec fn same_meaning(p: Payloads, a: NodeKind, q: Payloads, b: NodeKind) -> bool {
    match (a, b) {
        (NodeKind::IntConst(x), NodeKind::IntConst(y)) => x.0 < p.consts.len() && y.0
            < q.consts.len() && p.consts[x.0 as int] == q.consts[y.0 as int],
        (NodeKind::Switch(x), NodeKind::Switch(y)) => x.0 < p.switches.len() && y.0
            < q.switches.len() && p.switches[x.0 as int] == q.switches[y.0 as int],
        (NodeKind::Call { cc: Some(x) }, NodeKind::Call { cc: Some(y) }) => x.0 < p.ccs.len()
            && y.0 < q.ccs.len() && p.ccs[x.0 as int] == q.ccs[y.0 as int],
        _ => a == b,
    }
}

proof fn lemma_meaning_stays(p: Payloads, a: NodeKind, q: Payloads, r: Payloads, b: NodeKind)
    requires
        same_meaning(p, a, q, b),
        q.is_prefix_of(r),
    ensures
        same_meaning(p, a, r, b),
{
}

/// One of the first `upto` nodes of `g` has kind `kind`.
pub open spec fn occurs(g: GraphModel, upto: int, kind: NodeKind) -> bool {
    exists|n: int| 0 <= n < upto && (#[trigger] g.nodes[n]).kind == kind
}

/// Every payload is one of the first `upto` nodes'.
pub open spec fn all_referenced(g: GraphModel, upto: int, p: Payloads) -> bool {
    &&& forall|id: ConstId|
        id.0 < p.consts.len() ==> #[trigger] occurs(g, upto, NodeKind::IntConst(id))
    &&& forall|id: SwitchTableId|
        id.0 < p.switches.len() ==> #[trigger] occurs(g, upto, NodeKind::Switch(id))
    &&& forall|id: CcId|
        id.0 < p.ccs.len() ==> #[trigger] occurs(g, upto, NodeKind::Call { cc: Some(id) })
}

proof fn lemma_occurs_kept(g: GraphModel, h: GraphModel, n: NodeId, new_kind: NodeKind, kind: NodeKind)
    requires
        g.has_node(n),
        h == g.with_kind(n, new_kind),
        occurs(g, n.0 as int, kind),
    ensures
        occurs(h, n.0 + 1, kind),
{
    let m = choose|m: int| 0 <= m < n.0 && (#[trigger] g.nodes[m]).kind == kind;
    assert(h.nodes[m].kind == kind);
}

proof fn lemma_referenced_step(
    g: GraphModel,
    h: GraphModel,
    n: NodeId,
    new_kind: NodeKind,
    before: Payloads,
    after: Payloads,
)
    requires
        g.has_node(n),
        h == g.with_kind(n, new_kind),
        all_referenced(g, n.0 as int, before),
        before.is_prefix_of(after),
        after.consts.len() <= u32::MAX,
        after.switches.len() <= u32::MAX,
        after.ccs.len() <= u32::MAX,
        after.consts.len() <= before.consts.len() + 1,
        after.switches.len() <= before.switches.len() + 1,
        after.ccs.len() <= before.ccs.len() + 1,
        after.consts.len() > before.consts.len() ==> new_kind == NodeKind::IntConst(
            ConstId(before.consts.len() as u32),
        ),
        after.switches.len() > before.switches.len() ==> new_kind == NodeKind::Switch(
            SwitchTableId(before.switches.len() as u32),
        ),
        after.ccs.len() > before.ccs.len() ==> new_kind == (NodeKind::Call {
            cc: Some(CcId(before.ccs.len() as u32)),
        }),
    ensures
        all_referenced(h, n.0 + 1, after),
{
    assert(h.nodes[n.0 as int].kind == new_kind);
    assert forall|id: ConstId| id.0 < after.consts.len() implies #[trigger] occurs(
        h,
        n.0 + 1,
        NodeKind::IntConst(id),
    ) by {
        if id.0 < before.consts.len() {
            assert(occurs(g, n.0 as int, NodeKind::IntConst(id)));
            lemma_occurs_kept(g, h, n, new_kind, NodeKind::IntConst(id));
        }
    }
    assert forall|id: SwitchTableId| id.0 < after.switches.len() implies #[trigger] occurs(
        h,
        n.0 + 1,
        NodeKind::Switch(id),
    ) by {
        if id.0 < before.switches.len() {
            assert(occurs(g, n.0 as int, NodeKind::Switch(id)));
            lemma_occurs_kept(g, h, n, new_kind, NodeKind::Switch(id));
        }
    }
    assert forall|id: CcId| id.0 < after.ccs.len() implies #[trigger] occurs(
        h,
        n.0 + 1,
        NodeKind::Call { cc: Some(id) },
    ) by {
        if id.0 < before.ccs.len() {
            assert(occurs(g, n.0 as int, NodeKind::Call { cc: Some(id) }));
            lemma_occurs_kept(g, h, n, new_kind, NodeKind::Call { cc: Some(id) });
        }
    }
}

proof fn lemma_referenced_cache(g: GraphModel, h: GraphModel, upto: int, p: Payloads)
    requires
        all_referenced(g, upto, p),
        h.nodes == g.nodes,
    ensures
        all_referenced(h, upto, p),
{
    assert forall|kind: NodeKind| occurs(g, upto, kind) implies #[trigger] occurs(
        h,
        upto,
        kind,
    ) by {
        let m = choose|m: int| 0 <= m < upto && (#[trigger] g.nodes[m]).kind == kind;
        assert(h.nodes[m].kind == kind);
    }
    assert forall|id: ConstId| id.0 < p.consts.len() implies #[trigger] occurs(
        h,
        upto,
        NodeKind::IntConst(id),
    ) by {
        assert(occurs(g, upto, NodeKind::IntConst(id)));
    }
    assert forall|id: SwitchTableId| id.0 < p.switches.len() implies #[trigger] occurs(
        h,
        upto,
        NodeKind::Switch(id),
    ) by {
        assert(occurs(g, upto, NodeKind::Switch(id)));
    }
    assert forall|id: CcId| id.0 < p.ccs.len() implies #[trigger] occurs(
        h,
        upto,
        NodeKind::Call { cc: Some(id) },
    ) by {
        assert(occurs(g, upto, NodeKind::Call { cc: Some(id) }));
    }
}

/// `b` is `a` compacted: `h` is the graph of `a` cut down to the nodes of
/// `order`, and `b` differs from it only in payload ids and the cache.
pub open spec fn compaction_of(
    a: &Function,
    b: &Function,
    remap: &NodeIdRemap,
    order: Seq<NodeId>,
    h: GraphModel,
) -> bool {
    &&& retained(a.g(), h, order, remap)
    &&& order == walk_order(a.g(), a.entry_node())
    &&& same_shape(h, b.g())
    &&& b.g().cache == b.g().cache_of_first(b.g().nodes.len())
    &&& forall|k: int|
        0 <= k < order.len() ==> same_meaning(
            a.payloads(),
            a.g().kind(#[trigger] order[k]),
            b.payloads(),
            b.g().kind(NodeId(k as u32)),
        )
}

/// `b` is `a` compacted, `remap` saying where ids went.
pub open spec fn compacted(a: &Function, b: &Function, remap: &NodeIdRemap) -> bool {
    exists|order: Seq<NodeId>, h: GraphModel| #[trigger] compaction_of(a, b, remap, order, h)
}

/// The cache built from the nodes depends on the cache there was in nothing.
proof fn lemma_cache_of_first_same(g: GraphModel, h: GraphModel, k: nat)
    requires
        h.nodes == g.nodes,
        h.uses == g.uses,
        h.values == g.values,
        k <= g.nodes.len() <= u32::MAX,
    ensures
        h.cache_of_first(k) == g.cache_of_first(k),
    decreases k,
{
    if k > 0 {
        lemma_cache_of_first_same(g, h, (k - 1) as nat);
        let n = NodeId((k - 1) as u32);
        assert(h.ins(n) =~= g.ins(n));
        assert(h.out_kinds(n) =~= g.out_kinds(n));
    }
}

fn copy_words(words: &Vec<u64>) -> (r: Vec<u64>)
    ensures
        r@ == words@,
{
    let mut r: Vec<u64> = Vec::new();
    let mut i: usize = 0;
    while i < words.len()
        invariant
            i <= words.len(),
            r@ == words@.take(i as int),
        decreases words.len() - i,
    {
        r.push(words[i]);
        i += 1;
        assert(r@ =~= words@.take(i as int));
    }
    assert(r@ =~= words@);
    r
}

/// The graphs differ in kinds and cache alone.
pub open spec fn same_shape(a: GraphModel, b: GraphModel) -> bool {
    &&& a.nodes.len() == b.nodes.len()
    &&& a.values == b.values
    &&& a.uses == b.uses
    &&& a.lists == b.lists
    &&& a.generation == b.generation
    &&& forall|n: int|
        0 <= n < a.nodes.len() ==> (#[trigger] a.nodes[n]).inputs == b.nodes[n].inputs
            && a.nodes[n].outputs == b.nodes[n].outputs
}

proof fn lemma_ascending_count(s: Seq<Vn>, t: Seq<Vn>)
    requires
        vns_ascending(s),
        forall|v: Vn| #[trigger] s.contains(v) <==> t.contains(v),
    ensures
        s.len() <= t.len(),
{
    let at = Seq::new(s.len(), |i: int| t.index_of(s[i]));
    assert forall|i: int| 0 <= i < at.len() implies 0 <= #[trigger] at[i] < t.len() && t[at[i]]
        == s[i] by {
        assert(s.contains(s[i]));
        assert(t.contains(s[i]));
    }
    assert forall|i: int, j: int| 0 <= i < j < at.len() implies at[i] != at[j] by {
        assert(t[at[i]] == s[i] && t[at[j]] == s[j]);
        assert(vn_before(s[i], s[j]));
    }
    crate::entity_set::lemma_distinct_ints(at, t.len());
}

/// The registers in which a call under `cc` returns values, and the others
/// that it overwrites, over the varnodes that a function tracks.
pub fn cc_ret_and_clobber_vns(function: &Function, cc: &BuiltCallingConvention) -> (r: (
    Vec<Vn>,
    Vec<Vn>,
))
    ensures
        r.0@ == ret_vals(function.vns(), cc, cc.stack_vn),
        r.1@ == clobbers(function.vns(), cc, cc.stack_vn),
{
    let rets = ret_vals_of(function.all_vns(), cc, cc.stack_vn);
    let rest = clobbers_of(function.all_vns(), cc, cc.stack_vn);
    (rets, rest)
}

} // verus!
