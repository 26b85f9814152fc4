//! Per-function data keyed by arena ids that is no part of the structure of
//! the graph.

use crate::graph::compact::NodeIdRemap;
use crate::id_map::{Alike, IdMap};
use crate::interner::{interned, EntityInterner, MemSlot};
use crate::node::{InitialVnId, NodeId, ValueId};
use crate::target::{BuiltCallingConvention, CcModel};
use vstd::prelude::*;

verus! {

/// The id of a distinct `(base, offset)` decomposition.
#[derive(Clone, Copy, PartialEq, Eq, Structural, Hash, Debug)]
pub struct MemoryId(pub u32);

/// An address reduced to a base and an offset, or why it is not.
#[derive(Clone, Copy, PartialEq, Eq, Structural, Debug)]
pub enum MemDecomp {
    /// Not computed yet.
    Unknown,
    /// Rooted neither in the stack nor in the heap.
    NotMemory,
    /// Rooted at the stack pointer on entry, or at a masked copy of it.
    Stack(MemoryId),
    /// Rooted at the pointer a pure allocator returned.
    Heap(MemoryId),
}

/// What is known of the address a value is.
pub enum MemPlace {
    Unknown,
    NotMemory,
    Stack(MemSlot),
    Heap(MemSlot),
}

/// The class a function argument is passed in. Stack arguments go on counting
/// where the integer registers end.
#[derive(Clone, Copy, PartialEq, Eq, Structural, Hash, Debug)]
pub enum ArgClass {
    Integer,
    Float,
}

/// One of the tables.
pub enum Table {
    Names,
    Fingerprints,
    ValueVn,
    CallCc,
    Args,
    Memory,
    Allocators,
    SwitchTargets,
    PhiOffsets,
    StackOffsets,
    InitialVars,
    FrameEscape,
}

/// Numbers in strictly ascending order.
pub open spec fn ascending(s: Seq<u64>) -> bool {
    forall|i: int, j: int| 0 <= i < j < s.len() ==> s[i] < s[j]
}

/// The per-function tables.
pub struct SideTables {
    call_other_names: IdMap<String>,
    asm_fingerprints: IdMap<Vec<u64>>,
    value_vn: IdMap<InitialVnId>,
    call_cc: IdMap<BuiltCallingConvention>,
    int_args: IdMap<Vec<ValueId>>,
    float_args: IdMap<Vec<ValueId>>,
    memory_offsets: IdMap<MemDecomp>,
    memory_interner: EntityInterner<MemSlot>,
    noalias_allocators: Vec<u64>,
    switch_targets: IdMap<Vec<u64>>,
    stack_phi_offsets: IdMap<Vec<i64>>,
    stack_offsets: IdMap<MemSlot>,
    initial_var_index: IdMap<NodeId>,
    frame_escape: Option<bool>,
}

impl Alike for InitialVnId {
    open spec fn alike(&self, other: &Self) -> bool {
        *self == *other
    }

    fn duplicate(&self) -> (r: Self) {
        *self
    }
}

impl Alike for NodeId {
    open spec fn alike(&self, other: &Self) -> bool {
        *self == *other
    }

    fn duplicate(&self) -> (r: Self) {
        *self
    }
}

impl Alike for MemDecomp {
    open spec fn alike(&self, other: &Self) -> bool {
        *self == *other
    }

    fn duplicate(&self) -> (r: Self) {
        *self
    }
}

impl Alike for MemSlot {
    open spec fn alike(&self, other: &Self) -> bool {
        *self == *other
    }

    fn duplicate(&self) -> (r: Self) {
        *self
    }
}

impl Alike for BuiltCallingConvention {
    open spec fn alike(&self, other: &Self) -> bool {
        self@ == other@
    }

    fn duplicate(&self) -> (r: Self) {
        BuiltCallingConvention::duplicate(self)
    }
}

/// What a table of lists holds under an id.
spec fn listed<T>(map: &IdMap<Vec<T>>, key: u32) -> Seq<T> {
    match map.at(key) {
        Some(v) => v@,
        None => Seq::empty(),
    }
}

/// A table of lists holds no empty ones.
spec fn no_empty_lists<T>(map: &IdMap<Vec<T>>) -> bool {
    forall|k: u32| (#[trigger] map.at(k)) matches Some(v) ==> v@.len() > 0
}

/// The values of `vs` that a compaction kept, under their new ids.
pub open spec fn kept_values(vs: Seq<ValueId>, remap: &NodeIdRemap) -> Seq<ValueId>
    decreases vs.len(),
{
    if vs.len() == 0 {
        Seq::empty()
    } else {
        let rest = kept_values(vs.drop_last(), remap);
        match remap.value(vs.last()) {
            Some(v) => rest.push(v),
            None => rest,
        }
    }
}

/// What is known of an address after a compaction: nothing, where its base was
/// dropped.
pub open spec fn kept_place(p: MemPlace, remap: &NodeIdRemap) -> MemPlace {
    match p {
        MemPlace::Unknown => MemPlace::Unknown,
        MemPlace::NotMemory => MemPlace::NotMemory,
        MemPlace::Stack(s) => match remap.value(s.base) {
            Some(b) => MemPlace::Stack(MemSlot { base: b, offset: s.offset }),
            None => MemPlace::Unknown,
        },
        MemPlace::Heap(s) => match remap.value(s.base) {
            Some(b) => MemPlace::Heap(MemSlot { base: b, offset: s.offset }),
            None => MemPlace::Unknown,
        },
    }
}

/// A stack slot after a compaction: gone, where its base was dropped.
pub open spec fn kept_slot(s: Option<MemSlot>, remap: &NodeIdRemap) -> Option<MemSlot> {
    match s {
        Some(s) => match remap.value(s.base) {
            Some(b) => Some(MemSlot { base: b, offset: s.offset }),
            None => None,
        },
        None => None,
    }
}

impl SideTables {
    // -- what the tables hold -----------------------------------------------

    /// The recorded name of a user-op node.
    pub closed spec fn name_of(&self, n: NodeId) -> Option<Seq<char>> {
        match self.call_other_names.at(n.0) {
            Some(s) => Some(s@),
            None => None,
        }
    }

    /// The machine addresses that contributed to a node, ascending.
    pub closed spec fn fingerprint(&self, n: NodeId) -> Seq<u64> {
        listed(&self.asm_fingerprints, n.0)
    }

    /// The varnode a value stands for.
    pub closed spec fn vn_of(&self, v: ValueId) -> Option<InitialVnId> {
        self.value_vn.at(v.0)
    }

    /// The convention a call overrides the default with.
    pub closed spec fn cc_of(&self, n: NodeId) -> Option<CcModel> {
        match self.call_cc.at(n.0) {
            Some(cc) => Some(cc@),
            None => None,
        }
    }

    /// The values that carry an argument.
    pub closed spec fn carriers(&self, class: ArgClass, index: u32) -> Seq<ValueId> {
        match class {
            ArgClass::Integer => listed(&self.int_args, index),
            ArgClass::Float => listed(&self.float_args, index),
        }
    }

    /// The decomposition of the address a value is.
    pub closed spec fn decomp(&self, v: ValueId) -> MemDecomp {
        match self.memory_offsets.at(v.0) {
            Some(d) => d,
            None => MemDecomp::Unknown,
        }
    }

    /// The interned decompositions.
    pub closed spec fn slots(&self) -> Seq<MemSlot> {
        self.memory_interner@
    }

    /// What is known of the address a value is.
    pub open spec fn place(&self, v: ValueId) -> MemPlace {
        match self.decomp(v) {
            MemDecomp::Unknown => MemPlace::Unknown,
            MemDecomp::NotMemory => MemPlace::NotMemory,
            MemDecomp::Stack(id) => MemPlace::Stack(self.slots()[id.0 as int]),
            MemDecomp::Heap(id) => MemPlace::Heap(self.slots()[id.0 as int]),
        }
    }

    /// Whether an address is a pure allocator.
    pub closed spec fn allocator(&self, addr: u64) -> bool {
        self.noalias_allocators@.contains(addr)
    }

    /// The case addresses recorded for a switch.
    pub closed spec fn targets_of(&self, n: NodeId) -> Seq<u64> {
        listed(&self.switch_targets, n.0)
    }

    /// The stack offsets recorded for a stack-store phi.
    pub closed spec fn phi_offsets_of(&self, n: NodeId) -> Seq<i64> {
        listed(&self.stack_phi_offsets, n.0)
    }

    /// The stack slot recorded for a node.
    pub closed spec fn slot_of(&self, n: NodeId) -> Option<MemSlot> {
        self.stack_offsets.at(n.0)
    }

    /// The node of a tracked varnode's initial value.
    pub closed spec fn initial_var(&self, id: InitialVnId) -> Option<NodeId> {
        self.initial_var_index.at(id.0)
    }

    /// The frame-escape verdict, if it was computed.
    pub closed spec fn escape(&self) -> Option<bool> {
        self.frame_escape
    }

    /// Fingerprints are ascending, no argument has an empty list of carriers,
    /// and every decomposition is interned.
    pub closed spec fn wf(&self) -> bool {
        &&& forall|n: NodeId| ascending(#[trigger] self.fingerprint(n))
        &&& no_empty_lists(&self.int_args)
        &&& no_empty_lists(&self.float_args)
        &&& self.memory_interner.wf()
        &&& forall|v: ValueId|
            match #[trigger] self.decomp(v) {
                MemDecomp::Stack(id) | MemDecomp::Heap(id) => id.0 < self.slots().len(),
                _ => true,
            }
    }

    /// Two sets of tables give the same answers.
    pub open spec fn agrees(&self, other: &SideTables) -> bool {
        &&& forall|n: NodeId| #[trigger] self.name_of(n) == other.name_of(n)
        &&& forall|n: NodeId| #[trigger] self.fingerprint(n) == other.fingerprint(n)
        &&& forall|v: ValueId| #[trigger] self.vn_of(v) == other.vn_of(v)
        &&& forall|n: NodeId| #[trigger] self.cc_of(n) == other.cc_of(n)
        &&& forall|c: ArgClass, i: u32| #[trigger] self.carriers(c, i) == other.carriers(c, i)
        &&& self.slots() == other.slots()
        &&& forall|v: ValueId| #[trigger] self.decomp(v) == other.decomp(v)
        &&& forall|a: u64| #[trigger] self.allocator(a) == other.allocator(a)
        &&& forall|n: NodeId| #[trigger] self.targets_of(n) == other.targets_of(n)
        &&& forall|n: NodeId| #[trigger] self.phi_offsets_of(n) == other.phi_offsets_of(n)
        &&& forall|n: NodeId| #[trigger] self.slot_of(n) == other.slot_of(n)
        &&& forall|id: InitialVnId| #[trigger] self.initial_var(id) == other.initial_var(id)
        &&& self.escape() == other.escape()
    }

    /// An independent copy.
    pub fn duplicate(&self) -> (r: SideTables)
        requires
            self.wf(),
        ensures
            r.wf(),
            r.agrees(self),
    {
        let r = SideTables {
            call_other_names: self.call_other_names.duplicate(),
            asm_fingerprints: self.asm_fingerprints.duplicate(),
            value_vn: self.value_vn.duplicate(),
            call_cc: self.call_cc.duplicate(),
            int_args: self.int_args.duplicate(),
            float_args: self.float_args.duplicate(),
            memory_offsets: self.memory_offsets.duplicate(),
            memory_interner: self.memory_interner.duplicate(),
            noalias_allocators: self.noalias_allocators.duplicate(),
            switch_targets: self.switch_targets.duplicate(),
            stack_phi_offsets: self.stack_phi_offsets.duplicate(),
            stack_offsets: self.stack_offsets.duplicate(),
            initial_var_index: self.initial_var_index.duplicate(),
            frame_escape: self.frame_escape,
        };
        proof {
            assert forall|n: NodeId| #[trigger] r.name_of(n) == self.name_of(n) by {
                assert(r.call_other_names.at(n.0) is Some <==> self.call_other_names.at(n.0) is Some);
            }
            assert forall|n: NodeId| #[trigger] r.fingerprint(n) == self.fingerprint(n) by {
                assert(r.asm_fingerprints.at(n.0) is Some <==> self.asm_fingerprints.at(n.0) is Some);
            }
            assert forall|v: ValueId| #[trigger] r.vn_of(v) == self.vn_of(v) by {
                assert(r.value_vn.at(v.0) is Some <==> self.value_vn.at(v.0) is Some);
            }
            assert forall|n: NodeId| #[trigger] r.cc_of(n) == self.cc_of(n) by {
                assert(r.call_cc.at(n.0) is Some <==> self.call_cc.at(n.0) is Some);
            }
            assert forall|c: ArgClass, i: u32| #[trigger] r.carriers(c, i) == self.carriers(c, i) by {
                assert(r.int_args.at(i) is Some <==> self.int_args.at(i) is Some);
                assert(r.float_args.at(i) is Some <==> self.float_args.at(i) is Some);
            }
            assert forall|v: ValueId| #[trigger] r.decomp(v) == self.decomp(v) by {
                assert(r.memory_offsets.at(v.0) is Some <==> self.memory_offsets.at(v.0) is Some);
            }
            assert forall|n: NodeId| #[trigger] r.targets_of(n) == self.targets_of(n) by {
                assert(r.switch_targets.at(n.0) is Some <==> self.switch_targets.at(n.0) is Some);
            }
            assert forall|n: NodeId| #[trigger] r.phi_offsets_of(n) == self.phi_offsets_of(n) by {
                assert(r.stack_phi_offsets.at(n.0) is Some <==> self.stack_phi_offsets.at(n.0) is Some);
            }
            assert forall|n: NodeId| #[trigger] r.slot_of(n) == self.slot_of(n) by {
                assert(r.stack_offsets.at(n.0) is Some <==> self.stack_offsets.at(n.0) is Some);
            }
            assert forall|id: InitialVnId| #[trigger] r.initial_var(id) == self.initial_var(id) by {
                assert(r.initial_var_index.at(id.0) is Some <==> self.initial_var_index.at(id.0) is Some);
            }
            assert forall|k: u32| (#[trigger] r.int_args.at(k)) is Some implies r.int_args.at(
                k,
            )->Some_0@.len() > 0 by {
                assert(self.int_args.at(k) is Some);
            }
            assert forall|k: u32| (#[trigger] r.float_args.at(k)) is Some implies r.float_args.at(
                k,
            )->Some_0@.len() > 0 by {
                assert(self.float_args.at(k) is Some);
            }
        }
        r
    }

    /// The tables agree, except perhaps in one.
    pub closed spec fn same_except(&self, other: &SideTables, t: Table) -> bool {
        &&& t == Table::Names || self.call_other_names == other.call_other_names
        &&& t == Table::Fingerprints || self.asm_fingerprints == other.asm_fingerprints
        &&& t == Table::ValueVn || self.value_vn == other.value_vn
        &&& t == Table::CallCc || self.call_cc == other.call_cc
        &&& t == Table::Args || (self.int_args == other.int_args && self.float_args
            == other.float_args)
        &&& t == Table::Memory || (self.memory_offsets == other.memory_offsets
            && self.memory_interner == other.memory_interner)
        &&& t == Table::Allocators || self.noalias_allocators == other.noalias_allocators
        &&& t == Table::SwitchTargets || self.switch_targets == other.switch_targets
        &&& t == Table::PhiOffsets || self.stack_phi_offsets == other.stack_phi_offsets
        &&& t == Table::StackOffsets || self.stack_offsets == other.stack_offsets
        &&& t == Table::InitialVars || self.initial_var_index == other.initial_var_index
        &&& t == Table::FrameEscape || self.frame_escape == other.frame_escape
    }

    /// Agreement in a table means the same answers from it.
    pub proof fn lemma_same_except(&self, other: &SideTables, t: Table)
        requires
            self.same_except(other, t),
        ensures
            t != Table::Names ==> forall|n: NodeId|
                #[trigger] self.name_of(n) == other.name_of(n),
            t != Table::Fingerprints ==> forall|n: NodeId|
                #[trigger] self.fingerprint(n) == other.fingerprint(n),
            t != Table::ValueVn ==> forall|v: ValueId| #[trigger] self.vn_of(v) == other.vn_of(v),
            t != Table::CallCc ==> forall|n: NodeId| #[trigger] self.cc_of(n) == other.cc_of(n),
            t != Table::Args ==> forall|c: ArgClass, i: u32| #[trigger]
                self.carriers(c, i) == other.carriers(c, i),
            t != Table::Memory ==> self.slots() == other.slots() && forall|v: ValueId| #[trigger]
                self.decomp(v) == other.decomp(v),
            t != Table::Allocators ==> forall|a: u64| #[trigger]
                self.allocator(a) == other.allocator(a),
            t != Table::SwitchTargets ==> forall|n: NodeId| #[trigger]
                self.targets_of(n) == other.targets_of(n),
            t != Table::PhiOffsets ==> forall|n: NodeId| #[trigger]
                self.phi_offsets_of(n) == other.phi_offsets_of(n),
            t != Table::StackOffsets ==> forall|n: NodeId| #[trigger]
                self.slot_of(n) == other.slot_of(n),
            t != Table::InitialVars ==> forall|id: InitialVnId| #[trigger]
                self.initial_var(id) == other.initial_var(id),
            t != Table::FrameEscape ==> self.escape() == other.escape(),
    {
    }

    /// Agreement carries over a middle table.
    pub proof fn lemma_same_except_trans(a: &SideTables, b: &SideTables, c: &SideTables, t: Table)
        requires
            a.same_except(b, t),
            b.same_except(c, t),
        ensures
            a.same_except(c, t),
    {
    }

    /// A table agrees with itself.
    pub proof fn lemma_same_except_refl(&self, t: Table)
        ensures
            self.same_except(self, t),
    {
    }

    /// Fingerprints of a well-formed table are ascending.
    pub proof fn lemma_fingerprint_ascending(&self, n: NodeId)
        requires
            self.wf(),
        ensures
            ascending(self.fingerprint(n)),
    {
    }

    /// The decompositions of a well-formed table are interned.
    pub proof fn lemma_decomp_interned(&self, v: ValueId)
        requires
            self.wf(),
        ensures
            match self.decomp(v) {
                MemDecomp::Stack(id) | MemDecomp::Heap(id) => id.0 < self.slots().len(),
                _ => true,
            },
    {
    }

    /// The tables hold nothing.
    pub open spec fn empty(&self) -> bool {
        &&& forall|n: NodeId| (#[trigger] self.name_of(n)) is None
        &&& forall|n: NodeId| (#[trigger] self.fingerprint(n)).len() == 0
        &&& forall|v: ValueId| (#[trigger] self.vn_of(v)) is None
        &&& forall|n: NodeId| (#[trigger] self.cc_of(n)) is None
        &&& forall|c: ArgClass, i: u32| (#[trigger] self.carriers(c, i)).len() == 0
        &&& forall|v: ValueId| (#[trigger] self.decomp(v)) == MemDecomp::Unknown
        &&& self.slots().len() == 0
        &&& forall|a: u64| !(#[trigger] self.allocator(a))
        &&& forall|n: NodeId| (#[trigger] self.targets_of(n)).len() == 0
        &&& forall|n: NodeId| (#[trigger] self.phi_offsets_of(n)).len() == 0
        &&& forall|n: NodeId| (#[trigger] self.slot_of(n)) is None
        &&& forall|id: InitialVnId| (#[trigger] self.initial_var(id)) is None
        &&& self.escape() is None
    }

    // -- operations ----------------------------------------------------------

    /// Tables without entries.
    pub fn new() -> (r: SideTables)
        ensures
            r.wf(),
            r.empty(),
    {
        SideTables {
            call_other_names: IdMap::new(),
            asm_fingerprints: IdMap::new(),
            value_vn: IdMap::new(),
            call_cc: IdMap::new(),
            int_args: IdMap::new(),
            float_args: IdMap::new(),
            memory_offsets: IdMap::new(),
            memory_interner: EntityInterner::new(),
            noalias_allocators: Vec::new(),
            switch_targets: IdMap::new(),
            stack_phi_offsets: IdMap::new(),
            stack_offsets: IdMap::new(),
            initial_var_index: IdMap::new(),
            frame_escape: None,
        }
    }

    /// The recorded name of a user-op node.
    pub fn call_other_name(&self, node_id: NodeId) -> (r: Option<&str>)
        ensures
            match r {
                Some(s) => self.name_of(node_id) == Some(s@),
                None => self.name_of(node_id) is None,
            },
    {
        match self.call_other_names.get(node_id.0) {
            Some(s) => Some(s.as_str()),
            None => None,
        }
    }

    /// Records the name of a user-op node, in place of any before.
    pub fn set_call_other_name(&mut self, node_id: NodeId, name: String)
        requires
            old(self).wf(),
        ensures
            final(self).wf(),
            final(self).same_except(old(self), Table::Names),
            forall|n: NodeId|
                #[trigger] final(self).name_of(n) == (if n == node_id {
                    Some(name@)
                } else {
                    old(self).name_of(n)
                }),
    {
        self.call_other_names.insert(node_id.0, name);
        proof {
            self.lemma_keeps_wf(old(self));
        }
    }

    /// The convention recorded for a call.
    pub fn call_cc(&self, node_id: NodeId) -> (r: Option<&BuiltCallingConvention>)
        ensures
            match r {
                Some(cc) => self.cc_of(node_id) == Some(cc@),
                None => self.cc_of(node_id) is None,
            },
    {
        self.call_cc.get(node_id.0)
    }

    /// Records the convention of a call, in place of any before.
    pub fn set_call_cc(&mut self, node_id: NodeId, cc: BuiltCallingConvention)
        requires
            old(self).wf(),
        ensures
            final(self).wf(),
            final(self).same_except(old(self), Table::CallCc),
            forall|n: NodeId|
                #[trigger] final(self).cc_of(n) == (if n == node_id {
                    Some(cc@)
                } else {
                    old(self).cc_of(n)
                }),
    {
        self.call_cc.insert(node_id.0, cc);
        proof {
            self.lemma_keeps_wf(old(self));
        }
    }

    proof fn lemma_keeps_wf(&self, other: &SideTables)
        requires
            other.wf(),
            self.asm_fingerprints == other.asm_fingerprints,
            self.int_args == other.int_args,
            self.float_args == other.float_args,
            self.memory_offsets == other.memory_offsets,
            self.memory_interner == other.memory_interner,
        ensures
            self.wf(),
    {
        assert forall|n: NodeId| ascending(#[trigger] self.fingerprint(n)) by {
            assert(ascending(other.fingerprint(n)));
        }
        assert forall|v: ValueId| match #[trigger] self.decomp(v) {
            MemDecomp::Stack(id) | MemDecomp::Heap(id) => id.0 < self.slots().len(),
            _ => true,
        } by {
            assert(self.decomp(v) == other.decomp(v));
        }
    }

    /// The varnode recorded for a value.
    pub fn value_vn(&self, value: ValueId) -> (r: Option<InitialVnId>)
        ensures
            r == self.vn_of(value),
    {
        match self.value_vn.get(value.0) {
            Some(id) => Some(*id),
            None => None,
        }
    }

    /// Records the varnode a value stands for, in place of any before.
    pub fn set_value_vn(&mut self, value: ValueId, id: InitialVnId)
        requires
            old(self).wf(),
        ensures
            final(self).wf(),
            final(self).same_except(old(self), Table::ValueVn),
            forall|v: ValueId|
                #[trigger] final(self).vn_of(v) == (if v == value {
                    Some(id)
                } else {
                    old(self).vn_of(v)
                }),
    {
        self.value_vn.insert(value.0, id);
        proof {
            self.lemma_keeps_wf(old(self));
        }
    }

    /// Every value with a recorded varnode, in id order, with the varnode.
    pub fn value_vn_entries(&self) -> (r: Vec<(ValueId, InitialVnId)>)
        ensures
            forall|v: ValueId, id: InitialVnId|
                #[trigger] r@.contains((v, id)) <==> self.vn_of(v) == Some(id),
            forall|i: int, j: int| 0 <= i < j < r@.len() ==> r@[i].0.0 < r@[j].0.0,
    {
        let len = self.value_vn.len();
        let mut r: Vec<(ValueId, InitialVnId)> = Vec::new();
        let mut i: usize = 0;
        while i < len && i <= 0xffff_ffff
            invariant
                len == self.value_vn.bound(),
                i <= len,
                i <= 0x1_0000_0000,
                forall|k: int|
                    0 <= k < r@.len() ==> self.vn_of((#[trigger] r@[k]).0) == Some(r@[k].1)
                        && r@[k].0.0 < i,
                forall|a: int, b: int| 0 <= a < b < r@.len() ==> r@[a].0.0 < r@[b].0.0,
                forall|v: ValueId, id: InitialVnId|
                    v.0 < i && self.vn_of(v) == Some(id) ==> #[trigger] r@.contains((v, id)),
            decreases len - i,
        {
            let ghost before = r@;
            let v = ValueId(i as u32);
            if let Some(id) = self.value_vn(v) {
                r.push((v, id));
                assert(r@[before.len() as int] == (v, id));
            }
            proof {
                assert forall|w: ValueId, id: InitialVnId|
                    w.0 < i + 1 && self.vn_of(w) == Some(id) implies #[trigger] r@.contains(
                    (w, id),
                ) by {
                    if w.0 < i {
                        assert(before.contains((w, id)));
                        let k = before.index_of((w, id));
                        assert(r@[k] == (w, id));
                    } else {
                        assert(w == v);
                    }
                }
            }
            i += 1;
        }
        proof {
            assert forall|v: ValueId, id: InitialVnId| #[trigger]
                r@.contains((v, id)) <==> self.vn_of(v) == Some(id) by {
                if r@.contains((v, id)) {
                    let k = r@.index_of((v, id));
                    assert(r@[k] == (v, id));
                }
                if v.0 >= len {
                    self.value_vn.lemma_bound(v.0);
                }
            }
        }
        r
    }

    /// The values that carry the `index`-th argument of a class.
    fn class_values(&self, class: ArgClass, index: u32) -> (r: &[ValueId])
        ensures
            r@ == self.carriers(class, index),
    {
        let found = match class {
            ArgClass::Integer => self.int_args.get(index),
            ArgClass::Float => self.float_args.get(index),
        };
        match found {
            Some(v) => v.as_slice(),
            None => {
                let empty: &[ValueId] = &[];
                assert(empty@ =~= Seq::<ValueId>::empty());
                empty
            },
        }
    }

    /// The values that carry the `index`-th integer argument.
    pub fn arg_index_to_values(&self, index: u32) -> (r: &[ValueId])
        ensures
            r@ == self.carriers(ArgClass::Integer, index),
    {
        self.class_values(ArgClass::Integer, index)
    }

    /// The values that carry the `index`-th float argument.
    pub fn float_arg_index_to_values(&self, index: u32) -> (r: &[ValueId])
        ensures
            r@ == self.carriers(ArgClass::Float, index),
    {
        self.class_values(ArgClass::Float, index)
    }

    /// Adds a carrier of the `index`-th integer argument.
    pub fn register_arg_value(&mut self, index: u32, value: ValueId)
        requires
            old(self).wf(),
        ensures
            final(self).wf(),
            final(self).same_except(old(self), Table::Args),
            forall|c: ArgClass, i: u32|
                #[trigger] final(self).carriers(c, i) == (if c == ArgClass::Integer && i == index {
                    old(self).carriers(c, i).push(value)
                } else {
                    old(self).carriers(c, i)
                }),
    {
        let mut list = match self.int_args.take(index) {
            Some(list) => list,
            None => Vec::new(),
        };
        list.push(value);
        self.int_args.insert(index, list);
        proof {
            self.lemma_args_changed(old(self));
        }
    }

    /// Adds a carrier of the `index`-th float argument.
    pub fn register_float_arg_value(&mut self, index: u32, value: ValueId)
        requires
            old(self).wf(),
        ensures
            final(self).wf(),
            final(self).same_except(old(self), Table::Args),
            forall|c: ArgClass, i: u32|
                #[trigger] final(self).carriers(c, i) == (if c == ArgClass::Float && i == index {
                    old(self).carriers(c, i).push(value)
                } else {
                    old(self).carriers(c, i)
                }),
    {
        let mut list = match self.float_args.take(index) {
            Some(list) => list,
            None => Vec::new(),
        };
        list.push(value);
        self.float_args.insert(index, list);
        proof {
            self.lemma_args_changed(old(self));
        }
    }

    proof fn lemma_args_changed(&self, other: &SideTables)
        requires
            other.wf(),
            self.same_except(other, Table::Args),
            no_empty_lists(&self.int_args),
            no_empty_lists(&self.float_args),
        ensures
            self.wf(),
    {
        assert forall|n: NodeId| ascending(#[trigger] self.fingerprint(n)) by {
            assert(ascending(other.fingerprint(n)));
        }
        assert forall|v: ValueId| match #[trigger] self.decomp(v) {
            MemDecomp::Stack(id) | MemDecomp::Heap(id) => id.0 < self.slots().len(),
            _ => true,
        } by {
            assert(self.decomp(v) == other.decomp(v));
        }
    }

    /// The arguments of a class that have carriers, ascending.
    fn class_indices(&self, class: ArgClass) -> (r: Vec<u32>)
        requires
            self.wf(),
        ensures
            forall|i: u32| #[trigger] r@.contains(i) <==> self.carriers(class, i).len() > 0,
            forall|a: int, b: int| 0 <= a < b < r@.len() ==> r@[a] < r@[b],
    {
        let table = match class {
            ArgClass::Integer => &self.int_args,
            ArgClass::Float => &self.float_args,
        };
        let len = table.len();
        let mut r: Vec<u32> = Vec::new();
        let mut i: usize = 0;
        while i < len && i <= 0xffff_ffff
            invariant
                len == table.bound(),
                no_empty_lists(table),
                forall|k: u32| #[trigger] self.carriers(class, k) == listed(table, k),
                i <= len,
                i <= 0x1_0000_0000,
                forall|k: int|
                    0 <= k < r@.len() ==> self.carriers(class, #[trigger] r@[k]).len() > 0 && r@[k]
                        < i,
                forall|k: u32|
                    k < i && self.carriers(class, k).len() > 0 ==> #[trigger] r@.contains(k),
                forall|a: int, b: int| 0 <= a < b < r@.len() ==> r@[a] < r@[b],
            decreases len - i,
        {
            let ghost before = r@;
            let key: u32 = i as u32;
            if table.get(key).is_some() {
                r.push(key);
                assert(r@[before.len() as int] == key);
            }
            proof {
                assert(self.carriers(class, key) == listed(table, key));
                assert forall|k: u32|
                    k < i + 1 && self.carriers(class, k).len() > 0 implies #[trigger] r@.contains(
                    k,
                ) by {
                    if k < i {
                        assert(before.contains(k));
                        let x = before.index_of(k);
                        assert(r@[x] == k);
                    } else {
                        assert(k == key);
                    }
                }
            }
            i += 1;
        }
        proof {
            assert forall|k: u32| #[trigger] r@.contains(k) <==> self.carriers(class, k).len()
                > 0 by {
                assert(self.carriers(class, k) == listed(table, k));
                if r@.contains(k) {
                    let x = r@.index_of(k);
                    assert(r@[x] == k);
                }
                if k >= len {
                    table.lemma_bound(k);
                }
            }
        }
        r
    }

    /// The integer arguments that have carriers, ascending.
    pub fn iter_arg_indices(&self) -> (r: Vec<u32>)
        requires
            self.wf(),
        ensures
            forall|i: u32|
                #[trigger] r@.contains(i) <==> self.carriers(ArgClass::Integer, i).len() > 0,
            forall|a: int, b: int| 0 <= a < b < r@.len() ==> r@[a] < r@[b],
    {
        self.class_indices(ArgClass::Integer)
    }

    /// The float arguments that have carriers, ascending.
    pub fn iter_float_arg_indices(&self) -> (r: Vec<u32>)
        requires
            self.wf(),
        ensures
            forall|i: u32|
                #[trigger] r@.contains(i) <==> self.carriers(ArgClass::Float, i).len() > 0,
            forall|a: int, b: int| 0 <= a < b < r@.len() ==> r@[a] < r@[b],
    {
        self.class_indices(ArgClass::Float)
    }

    /// The carriers of the arguments of a class below an index, those of each
    /// argument in turn.
    pub open spec fn carriers_below(&self, class: ArgClass, end: nat) -> Seq<ValueId>
        decreases end,
    {
        if end == 0 {
            Seq::empty()
        } else {
            self.carriers_below(class, (end - 1) as nat) + self.carriers(class, (end - 1) as u32)
        }
    }

    /// The carriers of a class, those of each argument in turn.
    pub open spec fn all_carriers(&self, class: ArgClass) -> Seq<ValueId> {
        self.carriers_below(class, 0x1_0000_0000)
    }

    proof fn lemma_carriers_below_contains(&self, class: ArgClass, end: nat, v: ValueId)
        requires
            end <= 0x1_0000_0000,
        ensures
            self.carriers_below(class, end).contains(v) <==> exists|i: u32|
                i < end && (#[trigger] self.carriers(class, i)).contains(v),
        decreases end,
    {
        if end > 0 {
            let last: u32 = (end - 1) as u32;
            self.lemma_carriers_below_contains(class, (end - 1) as nat, v);
            lemma_concat_contains(
                self.carriers_below(class, (end - 1) as nat),
                self.carriers(class, last),
                v,
            );
            if exists|i: u32| i < end && (#[trigger] self.carriers(class, i)).contains(v) {
                let i = choose|i: u32| i < end && (#[trigger] self.carriers(class, i)).contains(v);
                if i == last {
                    assert(self.carriers(class, last).contains(v));
                } else {
                    assert(i < (end - 1) as nat && self.carriers(class, i).contains(v));
                }
            }
        }
    }

    /// Arguments without carriers add nothing.
    proof fn lemma_carriers_below_end(&self, class: ArgClass, from: nat, end: nat)
        requires
            from <= end <= 0x1_0000_0000,
            forall|i: u32| from <= i ==> (#[trigger] self.carriers(class, i)).len() == 0,
        ensures
            self.carriers_below(class, end) == self.carriers_below(class, from),
        decreases end,
    {
        if from < end {
            self.lemma_carriers_below_end(class, from, (end - 1) as nat);
            assert(self.carriers(class, (end - 1) as u32).len() == 0);
            assert(self.carriers_below(class, end) =~= self.carriers_below(class, from));
        }
    }

    /// Appends the carriers of a class to `out`.
    fn push_carriers(&self, class: ArgClass, out: &mut Vec<ValueId>)
        ensures
            final(out)@ == old(out)@ + self.all_carriers(class),
    {
        let table = match class {
            ArgClass::Integer => &self.int_args,
            ArgClass::Float => &self.float_args,
        };
        let len = table.len();
        let mut k: usize = 0;
        assert(out@ =~= old(out)@ + self.carriers_below(class, 0));
        while k < len && k <= 0xffff_ffff
            invariant
                len == table.bound(),
                k <= len,
                k <= 0x1_0000_0000,
                out@ == old(out)@ + self.carriers_below(class, k as nat),
            decreases len - k,
        {
            let ghost before = out@;
            let list = self.class_values(class, k as u32);
            let mut i: usize = 0;
            while i < list.len()
                invariant
                    i <= list.len(),
                    out@ == before + list@.take(i as int),
                decreases list.len() - i,
            {
                out.push(list[i]);
                i += 1;
                assert(out@ =~= before + list@.take(i as int));
            }
            assert(list@.take(i as int) =~= list@);
            k += 1;
            assert(out@ =~= old(out)@ + self.carriers_below(class, k as nat));
        }
        proof {
            assert forall|i: u32| k <= i implies (#[trigger] self.carriers(class, i)).len() == 0 by {
                table.lemma_bound(i);
            }
            self.lemma_carriers_below_end(class, k as nat, 0x1_0000_0000);
        }
    }

    /// Every carrier of either class: those of each integer argument in turn,
    /// then those of each float argument.
    pub fn arg_carrier_values(&self) -> (r: Vec<ValueId>)
        ensures
            r@ == self.all_carriers(ArgClass::Integer) + self.all_carriers(ArgClass::Float),
            forall|v: ValueId|
                #[trigger] r@.contains(v) <==> exists|c: ArgClass, i: u32|
                    (#[trigger] self.carriers(c, i)).contains(v),
    {
        let mut r: Vec<ValueId> = Vec::new();
        self.push_carriers(ArgClass::Integer, &mut r);
        self.push_carriers(ArgClass::Float, &mut r);
        proof {
            let ints = self.all_carriers(ArgClass::Integer);
            let floats = self.all_carriers(ArgClass::Float);
            assert(r@ =~= ints + floats);
            assert forall|v: ValueId| #[trigger] r@.contains(v) <==> exists|c: ArgClass, i: u32|
                (#[trigger] self.carriers(c, i)).contains(v) by {
                lemma_concat_contains(ints, floats, v);
                self.lemma_carriers_below_contains(ArgClass::Integer, 0x1_0000_0000, v);
                self.lemma_carriers_below_contains(ArgClass::Float, 0x1_0000_0000, v);
                if exists|c: ArgClass, i: u32| (#[trigger] self.carriers(c, i)).contains(v) {
                    let (c, i) = choose|c: ArgClass, i: u32|
                        (#[trigger] self.carriers(c, i)).contains(v);
                    assert(i < 0x1_0000_0000 && self.carriers(c, i).contains(v));
                }
            }
        }
        r
    }

    /// Drops the carriers of every integer argument from `first` on.
    pub fn clear_arg_values_from(&mut self, first: u32)
        requires
            old(self).wf(),
        ensures
            final(self).wf(),
            final(self).same_except(old(self), Table::Args),
            forall|c: ArgClass, i: u32|
                #[trigger] final(self).carriers(c, i) == (if c == ArgClass::Integer && i >= first {
                    Seq::<ValueId>::empty()
                } else {
                    old(self).carriers(c, i)
                }),
    {
        let len = self.int_args.len();
        let mut i: usize = first as usize;
        while i < len && i <= 0xffff_ffff
            invariant
                i >= first,
                i <= 0x1_0000_0000,
                len == old(self).int_args.bound(),
                self.int_args.bound() == len,
                self.same_except(old(self), Table::Args),
                self.float_args == old(self).float_args,
                forall|k: u32|
                    #[trigger] self.int_args.at(k) == (if first <= k < i {
                        None
                    } else {
                        old(self).int_args.at(k)
                    }),
            decreases len - i,
        {
            let dropped = self.int_args.take(i as u32);
            i += 1;
        }
        proof {
            assert forall|k: u32| #[trigger] self.int_args.at(k) == (if first <= k {
                None
            } else {
                old(self).int_args.at(k)
            }) by {
                if k >= len {
                    old(self).int_args.lemma_bound(k);
                }
            }
            self.lemma_args_changed(old(self));
        }
    }

    /// The decomposition of the address a value is.
    pub fn memory_class(&self, value: ValueId) -> (r: MemDecomp)
        ensures
            r == self.decomp(value),
    {
        match self.memory_offsets.get(value.0) {
            Some(d) => *d,
            None => MemDecomp::Unknown,
        }
    }

    /// The base and the offset of the address a value is, if it has both.
    pub fn memory_slot_resolved(&self, value: ValueId) -> (r: Option<(ValueId, i128)>)
        requires
            self.wf(),
        ensures
            r == (match self.place(value) {
                MemPlace::Stack(s) | MemPlace::Heap(s) => Some((s.base, s.offset)),
                _ => None,
            }),
    {
        self.memory_decomp(value).1
    }

    /// The decomposition of the address a value is, and what it resolves to.
    pub fn memory_decomp(&self, value: ValueId) -> (r: (MemDecomp, Option<(ValueId, i128)>))
        requires
            self.wf(),
        ensures
            r.0 == self.decomp(value),
            r.1 == (match self.place(value) {
                MemPlace::Stack(s) | MemPlace::Heap(s) => Some((s.base, s.offset)),
                _ => None,
            }),
    {
        let class = self.memory_class(value);
        let slot = match class {
            MemDecomp::Stack(id) | MemDecomp::Heap(id) => match self.memory_interner.get(id.0) {
                Some(s) => Some((s.base, s.offset)),
                None => None,
            },
            MemDecomp::Unknown | MemDecomp::NotMemory => None,
        };
        (class, slot)
    }

    /// Room for one more decomposition.
    pub open spec fn has_slot_room(&self) -> bool {
        self.slots().len() < u32::MAX
    }

    fn set_decomp(&mut self, value: ValueId, d: MemDecomp)
        requires
            old(self).wf(),
            match d {
                MemDecomp::Stack(id) | MemDecomp::Heap(id) => id.0 < old(self).slots().len(),
                _ => true,
            },
        ensures
            final(self).wf(),
            final(self).same_except(old(self), Table::Memory),
            final(self).slots() == old(self).slots(),
            forall|v: ValueId|
                #[trigger] final(self).decomp(v) == (if v == value {
                    d
                } else {
                    old(self).decomp(v)
                }),
    {
        self.memory_offsets.insert(value.0, d);
        proof {
            assert forall|n: NodeId| ascending(#[trigger] self.fingerprint(n)) by {
                assert(ascending(old(self).fingerprint(n)));
            }
            assert forall|v: ValueId| match #[trigger] self.decomp(v) {
                MemDecomp::Stack(id) | MemDecomp::Heap(id) => id.0 < self.slots().len(),
                _ => true,
            } by {
                if v != value {
                    assert(self.decomp(v) == old(self).decomp(v));
                }
            }
        }
    }

    fn intern_slot(&mut self, base: ValueId, offset: i128) -> (r: MemoryId)
        requires
            old(self).wf(),
            old(self).has_slot_room(),
        ensures
            final(self).wf(),
            final(self).same_except(old(self), Table::Memory),
            r.0 < final(self).slots().len(),
            final(self).slots()[r.0 as int] == (MemSlot { base, offset }),
            final(self).slots() == interned(old(self).slots(), MemSlot { base, offset }),
            forall|v: ValueId| #[trigger] final(self).decomp(v) == old(self).decomp(v),
    {
        let id = self.memory_interner.intern(MemSlot { base, offset });
        proof {
            assert forall|n: NodeId| ascending(#[trigger] self.fingerprint(n)) by {
                assert(ascending(old(self).fingerprint(n)));
            }
            assert forall|v: ValueId| match #[trigger] self.decomp(v) {
                MemDecomp::Stack(id) | MemDecomp::Heap(id) => id.0 < self.slots().len(),
                _ => true,
            } by {
                assert(self.decomp(v) == old(self).decomp(v));
            }
        }
        MemoryId(id)
    }

    /// Records that a value is an address `offset` bytes from the stack base
    /// `base`.
    pub fn set_stack_slot(&mut self, value: ValueId, base: ValueId, offset: i128)
        requires
            old(self).wf(),
            old(self).has_slot_room(),
        ensures
            final(self).wf(),
            final(self).same_except(old(self), Table::Memory),
            final(self).slots() == interned(old(self).slots(), MemSlot { base, offset }),
            old(self).slots().len() <= final(self).slots().len() <= old(self).slots().len() + 1,
            forall|v: ValueId|
                #[trigger] final(self).place(v) == (if v == value {
                    MemPlace::Stack(MemSlot { base, offset })
                } else {
                    old(self).place(v)
                }),
    {
        let id = self.intern_slot(base, offset);
        let ghost mid = *self;
        self.set_decomp(value, MemDecomp::Stack(id));
        proof {
            assert forall|v: ValueId| #[trigger] self.place(v) == (if v == value {
                MemPlace::Stack(MemSlot { base, offset })
            } else {
                old(self).place(v)
            }) by {
                assert(mid.decomp(v) == old(self).decomp(v));
                old(self).lemma_decomp_interned(v);
            }
        }
    }

    /// Records that a value is an address `offset` bytes from the heap base
    /// `base`.
    pub fn set_heap_slot(&mut self, value: ValueId, base: ValueId, offset: i128)
        requires
            old(self).wf(),
            old(self).has_slot_room(),
        ensures
            final(self).wf(),
            final(self).same_except(old(self), Table::Memory),
            final(self).slots() == interned(old(self).slots(), MemSlot { base, offset }),
            old(self).slots().len() <= final(self).slots().len() <= old(self).slots().len() + 1,
            forall|v: ValueId|
                #[trigger] final(self).place(v) == (if v == value {
                    MemPlace::Heap(MemSlot { base, offset })
                } else {
                    old(self).place(v)
                }),
    {
        let id = self.intern_slot(base, offset);
        let ghost mid = *self;
        self.set_decomp(value, MemDecomp::Heap(id));
        proof {
            assert forall|v: ValueId| #[trigger] self.place(v) == (if v == value {
                MemPlace::Heap(MemSlot { base, offset })
            } else {
                old(self).place(v)
            }) by {
                assert(mid.decomp(v) == old(self).decomp(v));
                old(self).lemma_decomp_interned(v);
            }
        }
    }

    /// Records that a value is no address into the stack or the heap.
    pub fn set_not_memory(&mut self, value: ValueId)
        requires
            old(self).wf(),
        ensures
            final(self).wf(),
            final(self).same_except(old(self), Table::Memory),
            final(self).slots() == old(self).slots(),
            forall|v: ValueId|
                #[trigger] final(self).place(v) == (if v == value {
                    MemPlace::NotMemory
                } else {
                    old(self).place(v)
                }),
    {
        self.set_decomp(value, MemDecomp::NotMemory);
        proof {
            assert forall|v: ValueId| #[trigger] self.place(v) == (if v == value {
                MemPlace::NotMemory
            } else {
                old(self).place(v)
            }) by {
                assert(v != value ==> self.decomp(v) == old(self).decomp(v));
                assert(self.decomp(value) == MemDecomp::NotMemory);
            }
        }
    }

    /// Forgets every decomposition.
    pub fn clear_memory_slots(&mut self)
        requires
            old(self).wf(),
        ensures
            final(self).wf(),
            final(self).same_except(old(self), Table::Memory),
            final(self).slots().len() == 0,
            forall|v: ValueId| (#[trigger] final(self).decomp(v)) == MemDecomp::Unknown,
    {
        self.memory_offsets = IdMap::new();
        self.memory_interner = EntityInterner::new();
        proof {
            assert forall|n: NodeId| ascending(#[trigger] self.fingerprint(n)) by {
                assert(ascending(old(self).fingerprint(n)));
            }
        }
    }

    /// Replaces the pure allocators, and forgets every decomposition: what is
    /// a heap address depends on them.
    pub fn set_noalias_allocators(&mut self, addrs: Vec<u64>)
        requires
            old(self).wf(),
        ensures
            final(self).wf(),
            forall|a: u64| #[trigger] final(self).allocator(a) == addrs@.contains(a),
            final(self).slots().len() == 0,
            forall|v: ValueId| (#[trigger] final(self).decomp(v)) == MemDecomp::Unknown,
            forall|n: NodeId| #[trigger] final(self).name_of(n) == old(self).name_of(n),
            forall|n: NodeId| #[trigger] final(self).fingerprint(n) == old(self).fingerprint(n),
            forall|v: ValueId| #[trigger] final(self).vn_of(v) == old(self).vn_of(v),
            forall|n: NodeId| #[trigger] final(self).cc_of(n) == old(self).cc_of(n),
            forall|c: ArgClass, i: u32| #[trigger]
                final(self).carriers(c, i) == old(self).carriers(c, i),
            forall|n: NodeId| #[trigger] final(self).targets_of(n) == old(self).targets_of(n),
            forall|n: NodeId| #[trigger] final(self).phi_offsets_of(n) == old(self).phi_offsets_of(n),
            forall|n: NodeId| #[trigger] final(self).slot_of(n) == old(self).slot_of(n),
            forall|id: InitialVnId| #[trigger]
                final(self).initial_var(id) == old(self).initial_var(id),
            final(self).escape() == old(self).escape(),
    {
        self.noalias_allocators = addrs;
        proof {
            self.lemma_keeps_wf(old(self));
        }
        self.clear_memory_slots();
    }

    /// Whether an address is a pure allocator.
    pub fn is_noalias_allocator(&self, addr: u64) -> (r: bool)
        ensures
            r == self.allocator(addr),
    {
        let mut i: usize = 0;
        while i < self.noalias_allocators.len()
            invariant
                i <= self.noalias_allocators.len(),
                forall|k: int| 0 <= k < i ==> self.noalias_allocators@[k] != addr,
            decreases self.noalias_allocators.len() - i,
        {
            if self.noalias_allocators[i] == addr {
                assert(self.noalias_allocators@[i as int] == addr);
                return true;
            }
            i += 1;
        }
        false
    }

    /// The frame-escape verdict, if it was computed.
    pub fn frame_escape(&self) -> (r: Option<bool>)
        ensures
            r == self.escape(),
    {
        self.frame_escape
    }

    /// Records the frame-escape verdict.
    pub fn set_frame_escape(&mut self, escapes: bool)
        requires
            old(self).wf(),
        ensures
            final(self).wf(),
            final(self).same_except(old(self), Table::FrameEscape),
            final(self).escape() == Some(escapes),
    {
        self.frame_escape = Some(escapes);
        proof {
            self.lemma_keeps_wf(old(self));
        }
    }

    /// Forgets the frame-escape verdict.
    pub fn clear_frame_escape(&mut self)
        requires
            old(self).wf(),
        ensures
            final(self).wf(),
            final(self).same_except(old(self), Table::FrameEscape),
            final(self).escape() is None,
    {
        self.frame_escape = None;
        proof {
            self.lemma_keeps_wf(old(self));
        }
    }

    /// The case addresses recorded for a switch.
    pub fn switch_targets(&self, id: NodeId) -> (r: &[u64])
        ensures
            r@ == self.targets_of(id),
    {
        match self.switch_targets.get(id.0) {
            Some(v) => v.as_slice(),
            None => {
                let empty: &[u64] = &[];
                assert(empty@ =~= Seq::<u64>::empty());
                empty
            },
        }
    }

    /// Records the case addresses of a switch, in place of any before.
    pub fn set_switch_targets(&mut self, id: NodeId, targets: Vec<u64>)
        requires
            old(self).wf(),
        ensures
            final(self).wf(),
            final(self).same_except(old(self), Table::SwitchTargets),
            forall|n: NodeId|
                #[trigger] final(self).targets_of(n) == (if n == id {
                    targets@
                } else {
                    old(self).targets_of(n)
                }),
    {
        self.switch_targets.insert(id.0, targets);
        proof {
            self.lemma_keeps_wf(old(self));
        }
    }

    /// The stack offsets recorded for a stack-store phi.
    pub fn stack_phi_offsets(&self, id: NodeId) -> (r: &[i64])
        ensures
            r@ == self.phi_offsets_of(id),
    {
        match self.stack_phi_offsets.get(id.0) {
            Some(v) => v.as_slice(),
            None => {
                let empty: &[i64] = &[];
                assert(empty@ =~= Seq::<i64>::empty());
                empty
            },
        }
    }

    /// Records the stack offsets of a stack-store phi, in place of any before.
    pub fn set_stack_phi_offsets(&mut self, id: NodeId, offsets: Vec<i64>)
        requires
            old(self).wf(),
        ensures
            final(self).wf(),
            final(self).same_except(old(self), Table::PhiOffsets),
            forall|n: NodeId|
                #[trigger] final(self).phi_offsets_of(n) == (if n == id {
                    offsets@
                } else {
                    old(self).phi_offsets_of(n)
                }),
    {
        self.stack_phi_offsets.insert(id.0, offsets);
        proof {
            self.lemma_keeps_wf(old(self));
        }
    }

    /// The stack slot recorded for a node.
    pub fn stack_slot(&self, id: NodeId) -> (r: Option<MemSlot>)
        ensures
            r == self.slot_of(id),
    {
        match self.stack_offsets.get(id.0) {
            Some(slot) => Some(*slot),
            None => None,
        }
    }

    /// Records the stack slot of a node, in place of any before.
    pub fn set_node_stack_slot(&mut self, id: NodeId, base: ValueId, offset: i128)
        requires
            old(self).wf(),
        ensures
            final(self).wf(),
            final(self).same_except(old(self), Table::StackOffsets),
            forall|n: NodeId|
                #[trigger] final(self).slot_of(n) == (if n == id {
                    Some(MemSlot { base, offset })
                } else {
                    old(self).slot_of(n)
                }),
    {
        self.stack_offsets.insert(id.0, MemSlot { base, offset });
        proof {
            self.lemma_keeps_wf(old(self));
        }
    }

    /// The node of a tracked varnode's initial value.
    pub fn initial_var_node(&self, id: InitialVnId) -> (r: Option<NodeId>)
        ensures
            r == self.initial_var(id),
    {
        match self.initial_var_index.get(id.0) {
            Some(n) => Some(*n),
            None => None,
        }
    }

    /// Records the node of a tracked varnode's initial value.
    pub fn set_initial_var_node(&mut self, id: InitialVnId, node: NodeId)
        requires
            old(self).wf(),
        ensures
            final(self).wf(),
            final(self).same_except(old(self), Table::InitialVars),
            forall|k: InitialVnId|
                #[trigger] final(self).initial_var(k) == (if k == id {
                    Some(node)
                } else {
                    old(self).initial_var(k)
                }),
    {
        self.initial_var_index.insert(id.0, node);
        proof {
            self.lemma_keeps_wf(old(self));
        }
    }

    /// The machine addresses that contributed to a node, ascending.
    pub fn asm_fingerprint(&self, id: NodeId) -> (r: &[u64])
        ensures
            r@ == self.fingerprint(id),
            self.wf() ==> ascending(r@),
    {
        proof {
            if self.wf() {
                self.lemma_fingerprint_ascending(id);
            }
        }
        match self.asm_fingerprints.get(id.0) {
            Some(v) => v.as_slice(),
            None => {
                let empty: &[u64] = &[];
                assert(empty@ =~= Seq::<u64>::empty());
                empty
            },
        }
    }

    /// Whether no address contributed to a node.
    pub fn asm_fingerprint_is_empty(&self, id: NodeId) -> (r: bool)
        ensures
            r == (self.fingerprint(id).len() == 0),
    {
        self.asm_fingerprint(id).len() == 0
    }

    /// Adds contributing addresses to a node; none is ever removed.
    pub fn extend_asm_fingerprint(&mut self, node_id: NodeId, contributors: &[u64])
        requires
            old(self).wf(),
        ensures
            final(self).wf(),
            final(self).same_except(old(self), Table::Fingerprints),
            forall|n: NodeId|
                n != node_id ==> #[trigger] final(self).fingerprint(n) == old(self).fingerprint(n),
            forall|a: u64|
                #[trigger] final(self).fingerprint(node_id).contains(a) <==> old(self).fingerprint(node_id).contains(a) || contributors@.contains(a),
    {
        let mut list = match self.asm_fingerprints.take(node_id.0) {
            Some(list) => list,
            None => Vec::new(),
        };
        let ghost start = list@;
        assert(start =~= old(self).fingerprint(node_id));
        assert(ascending(old(self).fingerprint(node_id)));
        let mut i: usize = 0;
        while i < contributors.len()
            invariant
                i <= contributors.len(),
                ascending(list@),
                forall|a: u64|
                    #[trigger] list@.contains(a) <==> start.contains(a) || contributors@.take(
                        i as int,
                    ).contains(a),
            decreases contributors.len() - i,
        {
            let ghost before = list@;
            let addr = contributors[i];
            insert_ascending(&mut list, addr);
            i += 1;
            proof {
                assert forall|a: u64| #[trigger] list@.contains(a) <==> start.contains(a)
                    || contributors@.take(i as int).contains(a) by {
                    let whole = contributors@.take(i as int);
                    let part = contributors@.take(i - 1);
                    assert(whole =~= part.push(addr));
                    lemma_push_contains(part, addr, a);
                    assert(before.contains(a) <==> start.contains(a) || part.contains(a));
                }
            }
        }
        assert(contributors@.take(i as int) =~= contributors@);
        self.asm_fingerprints.insert(node_id.0, list);
        proof {
            assert(self.fingerprint(node_id) == list@);
            assert forall|n: NodeId| ascending(#[trigger] self.fingerprint(n)) by {
                if n != node_id {
                    assert(self.fingerprint(n) == old(self).fingerprint(n));
                    assert(ascending(old(self).fingerprint(n)));
                }
            }
            assert forall|v: ValueId| match #[trigger] self.decomp(v) {
                MemDecomp::Stack(id) | MemDecomp::Heap(id) => id.0 < self.slots().len(),
                _ => true,
            } by {
                assert(self.decomp(v) == old(self).decomp(v));
            }
        }
    }

    /// Adds the contributing addresses of `src` to `dst`.
    pub fn extend_asm_fingerprint_from(&mut self, dst: NodeId, src: NodeId)
        requires
            old(self).wf(),
        ensures
            final(self).wf(),
            final(self).same_except(old(self), Table::Fingerprints),
            forall|n: NodeId|
                n != dst ==> #[trigger] final(self).fingerprint(n) == old(self).fingerprint(n),
            forall|a: u64|
                #[trigger] final(self).fingerprint(dst).contains(a) <==> old(self).fingerprint(
                    dst,
                ).contains(a) || old(self).fingerprint(src).contains(a),
    {
        if dst == src {
            return ;
        }
        let from = self.asm_fingerprint(src);
        let mut copy: Vec<u64> = Vec::new();
        let mut i: usize = 0;
        while i < from.len()
            invariant
                i <= from.len(),
                copy@ == from@.take(i as int),
            decreases from.len() - i,
        {
            copy.push(from[i]);
            i += 1;
            assert(copy@ =~= from@.take(i as int));
        }
        assert(copy@ =~= from@);
        self.extend_asm_fingerprint(dst, &copy);
    }

    /// Rebuilds the decompositions over the kept values: both the value and
    /// the base of its slot get new ids.
    #[verifier::rlimit(30)]
    fn remap_memory(&mut self, remap: &NodeIdRemap)
        requires
            old(self).wf(),
            remap.injective(),
        ensures
            final(self).wf(),
            final(self).same_except(old(self), Table::Memory),
            forall|v: ValueId, w: ValueId|
                #[trigger] remap.value(v) == Some(w) ==> #[trigger] final(self).place(w)
                    == kept_place(old(self).place(v), remap),
            forall|w: ValueId|
                !value_image(remap, w) ==> (#[trigger] final(self).place(w)) == MemPlace::Unknown,
    {
        let ghost was = *self;
        let ghost old_slots = self.slots();
        let mut interner: EntityInterner<MemSlot> = EntityInterner::new();
        let mut table: IdMap<MemDecomp> = IdMap::new();
        let ghost mut source: Seq<int> = Seq::empty();
        let len = self.memory_offsets.len();
        let mut i: usize = 0;
        while i < len && i <= 0xffff_ffff
            invariant
                *self == was,
                was.wf(),
                remap.injective(),
                old_slots == was.slots(),
                len == was.memory_offsets.bound(),
                i <= len,
                i <= 0x1_0000_0000,
                interner.wf(),
                rebuilt_from(interner@, source, old_slots, remap),
                forall|w: ValueId| #[trigger] decomp_in(&table, w) matches (MemDecomp::Stack(id)
                | MemDecomp::Heap(id)) ==> id.0 < interner@.len(),
                forall|v: ValueId, w: ValueId|
                    v.0 < i && #[trigger] remap.value(v) == Some(w) ==> #[trigger] place_in(
                        &table,
                        interner@,
                        w,
                    ) == kept_place(was.place(v), remap),
                forall|w: ValueId|
                    (#[trigger] decomp_in(&table, w)) != MemDecomp::Unknown ==> exists|v: ValueId|
                        v.0 < i && #[trigger] remap.value(v) == Some(w),
            decreases len - i,
        {
            let v = ValueId(i as u32);
            let ghost table0 = table;
            let ghost interned0 = interner@;
            let class = self.memory_class(v);
            let (class, slot) = self.memory_decomp(v);
            proof {
                was.lemma_decomp_interned(v);
            }
            if let Some(w) = remap.output_old_to_new(v) {
                let placed: Option<MemDecomp> = match class {
                    MemDecomp::Unknown => None,
                    MemDecomp::NotMemory => Some(MemDecomp::NotMemory),
                    MemDecomp::Stack(id) | MemDecomp::Heap(id) => {
                        let s = *self.memory_interner.at(id.0);
                        match remap.output_old_to_new(s.base) {
                            None => None,
                            Some(base) => {
                                let moved = MemSlot { base, offset: s.offset };
                                proof {
                                    lemma_rebuilt_room(
                                        interner@,
                                        source,
                                        old_slots,
                                        remap,
                                        id.0 as int,
                                        moved,
                                    );
                                    if !interner@.contains(moved) {
                                        source = source.push(id.0 as int);
                                    }
                                }
                                let new_id = interner.intern(moved);
                                match class {
                                    MemDecomp::Heap(_) => Some(MemDecomp::Heap(MemoryId(new_id))),
                                    _ => Some(MemDecomp::Stack(MemoryId(new_id))),
                                }
                            },
                        }
                    },
                };
                let ghost interned1 = interner@;
                if let Some(d) = placed {
                    table.insert(w.0, d);
                }
                proof {
                    assert forall|x: ValueId|
                        #![trigger decomp_in(&table, x)]
                        x != w implies decomp_in(&table, x) == decomp_in(&table0, x) by {
                        assert(table0.at(x.0) == table0.at(x.0));
                    }
                    assert(decomp_in(&table0, w) == MemDecomp::Unknown) by {
                        if decomp_in(&table0, w) != MemDecomp::Unknown {
                            let x = choose|x: ValueId|
                                x.0 < i && #[trigger] remap.value(x) == Some(w);
                            assert(remap.value(x) == remap.value(v));
                        }
                    }
                    assert forall|x: ValueId| #[trigger]
                        decomp_in(&table, x) matches (MemDecomp::Stack(id)
                    | MemDecomp::Heap(id)) ==> id.0 < interner@.len() by {
                        if x != w {
                            assert(decomp_in(&table0, x) == decomp_in(&table, x));
                        }
                    }
                    assert forall|x: ValueId, y: ValueId|
                        x.0 < i + 1 && #[trigger] remap.value(x) == Some(y) implies #[trigger]
                        place_in(&table, interner@, y) == kept_place(was.place(x), remap) by {
                        if x == v {
                            assert(y == w);
                        } else {
                            assert(y != w) by {
                                if y == w {
                                    assert(remap.value(x) == remap.value(v));
                                }
                            }
                            assert(place_in(&table0, interned0, y) == kept_place(
                                was.place(x),
                                remap,
                            ));
                            assert(decomp_in(&table, y) == decomp_in(&table0, y));
                        }
                    }
                    assert forall|y: ValueId|
                        (#[trigger] decomp_in(&table, y)) != MemDecomp::Unknown implies exists|
                        x: ValueId,
                    |
                        x.0 < i + 1 && #[trigger] remap.value(x) == Some(y) by {
                        if y == w {
                            assert(remap.value(v) == Some(y));
                        } else {
                            assert(decomp_in(&table0, y) == decomp_in(&table, y));
                            let x = choose|x: ValueId|
                                x.0 < i && #[trigger] remap.value(x) == Some(y);
                            assert(remap.value(x) == Some(y));
                        }
                    }
                }
            } else {
                proof {
                    assert forall|y: ValueId|
                        (#[trigger] decomp_in(&table, y)) != MemDecomp::Unknown implies exists|
                        x: ValueId,
                    |
                        x.0 < i + 1 && #[trigger] remap.value(x) == Some(y) by {
                        let x = choose|x: ValueId|
                            x.0 < i && #[trigger] remap.value(x) == Some(y);
                        assert(remap.value(x) == Some(y));
                    }
                }
            }
            i += 1;
        }
        self.memory_offsets = table;
        self.memory_interner = interner;
        proof {
            assert forall|x: ValueId| #[trigger] self.decomp(x) == decomp_in(&table, x) by {}
            assert forall|x: ValueId| match #[trigger] self.decomp(x) {
                MemDecomp::Stack(id) | MemDecomp::Heap(id) => id.0 < self.slots().len(),
                _ => true,
            } by {
                assert(self.decomp(x) == decomp_in(&table, x));
            }
            assert forall|n: NodeId| ascending(#[trigger] self.fingerprint(n)) by {
                assert(ascending(was.fingerprint(n)));
            }
            assert forall|x: ValueId, y: ValueId| #[trigger]
                remap.value(x) == Some(y) implies #[trigger] self.place(y) == kept_place(
                was.place(x),
                remap,
            ) by {
                assert(self.place(y) == place_in(&table, interner@, y));
                if x.0 >= i {
                    was.memory_offsets.lemma_bound(x.0);
                    assert(was.place(x) == MemPlace::Unknown);
                    if decomp_in(&table, y) != MemDecomp::Unknown {
                        let z = choose|z: ValueId| z.0 < i && #[trigger] remap.value(z) == Some(y);
                        assert(remap.value(z) == remap.value(x));
                    }
                }
            }
            assert forall|y: ValueId| !value_image(remap, y) implies (
            #[trigger] self.place(y)) == MemPlace::Unknown by {
                if decomp_in(&table, y) != MemDecomp::Unknown {
                    let z = choose|z: ValueId| z.0 < i && #[trigger] remap.value(z) == Some(y);
                    assert(value_image(remap, y));
                }
                assert(self.decomp(y) == decomp_in(&table, y));
            }
        }
    }

    /// Puts every id in the tables through a compaction; what belongs to a
    /// dropped node or value is dropped.
    pub(crate) fn remap(&mut self, remap: &NodeIdRemap)
        requires
            old(self).wf(),
            remap.injective(),
            remap.fits(),
        ensures
            final(self).wf(),
            remapped(old(self), final(self), remap),
    {
        let ghost was = *self;
        let mut names: IdMap<String> = IdMap::new();
        std::mem::swap(&mut names, &mut self.call_other_names);
        self.call_other_names = by_node(names, remap);
        let mut fingerprints: IdMap<Vec<u64>> = IdMap::new();
        std::mem::swap(&mut fingerprints, &mut self.asm_fingerprints);
        self.asm_fingerprints = by_node(fingerprints, remap);
        let mut targets: IdMap<Vec<u64>> = IdMap::new();
        std::mem::swap(&mut targets, &mut self.switch_targets);
        self.switch_targets = by_node(targets, remap);
        let mut offsets: IdMap<Vec<i64>> = IdMap::new();
        std::mem::swap(&mut offsets, &mut self.stack_phi_offsets);
        self.stack_phi_offsets = by_node(offsets, remap);
        let mut slots: IdMap<MemSlot> = IdMap::new();
        std::mem::swap(&mut slots, &mut self.stack_offsets);
        keep_slots(&mut slots, remap);
        self.stack_offsets = by_node(slots, remap);
        let mut ccs: IdMap<BuiltCallingConvention> = IdMap::new();
        std::mem::swap(&mut ccs, &mut self.call_cc);
        self.call_cc = by_node(ccs, remap);
        let mut vns: IdMap<InitialVnId> = IdMap::new();
        std::mem::swap(&mut vns, &mut self.value_vn);
        self.value_vn = by_value(vns, remap);
        keep_initial_vars(&mut self.initial_var_index, remap);
        keep_carriers(&mut self.int_args, remap);
        keep_carriers(&mut self.float_args, remap);
        self.frame_escape = None;
        let ghost mid = *self;
        proof {
            assert forall|n: NodeId| ascending(#[trigger] mid.fingerprint(n)) by {
                if node_image(remap, n) {
                    let o = choose|o: NodeId| #[trigger] remap.node(o) == Some(n);
                    assert(mid.asm_fingerprints.at(n.0) == was.asm_fingerprints.at(o.0));
                    assert(ascending(was.fingerprint(o)));
                } else {
                    assert(mid.asm_fingerprints.at(n.0) is None);
                }
            }
            assert forall|v: ValueId| match #[trigger] mid.decomp(v) {
                MemDecomp::Stack(id) | MemDecomp::Heap(id) => id.0 < mid.slots().len(),
                _ => true,
            } by {
                assert(mid.decomp(v) == was.decomp(v));
            }
            assert(mid.wf());
        }
        self.remap_memory(remap);
        proof {
            self.lemma_same_except(&mid, Table::Memory);
            assert forall|v: ValueId| #[trigger] mid.place(v) == was.place(v) by {
                assert(mid.decomp(v) == was.decomp(v));
            }
            assert forall|n: NodeId, m: NodeId| #[trigger] remap.node(n) == Some(m) implies {
                &&& #[trigger] self.name_of(m) == was.name_of(n)
                &&& self.fingerprint(m) == was.fingerprint(n)
                &&& self.cc_of(m) == was.cc_of(n)
                &&& self.targets_of(m) == was.targets_of(n)
                &&& self.phi_offsets_of(m) == was.phi_offsets_of(n)
                &&& self.slot_of(m) == kept_slot(was.slot_of(n), remap)
            } by {
                assert(mid.call_other_names.at(m.0) == was.call_other_names.at(n.0));
                assert(mid.asm_fingerprints.at(m.0) == was.asm_fingerprints.at(n.0));
                assert(mid.call_cc.at(m.0) == was.call_cc.at(n.0));
                assert(mid.switch_targets.at(m.0) == was.switch_targets.at(n.0));
                assert(mid.stack_phi_offsets.at(m.0) == was.stack_phi_offsets.at(n.0));
                assert(mid.stack_offsets.at(m.0) == slots.at(n.0));
                assert(self.name_of(m) == mid.name_of(m));
                assert(self.fingerprint(m) == mid.fingerprint(m));
                assert(self.cc_of(m) == mid.cc_of(m));
                assert(self.targets_of(m) == mid.targets_of(m));
                assert(self.phi_offsets_of(m) == mid.phi_offsets_of(m));
                assert(self.slot_of(m) == mid.slot_of(m));
            }
            assert forall|m: NodeId| !node_image(remap, m) implies {
                &&& (#[trigger] self.name_of(m)) is None
                &&& self.fingerprint(m).len() == 0
                &&& self.cc_of(m) is None
                &&& self.targets_of(m).len() == 0
                &&& self.phi_offsets_of(m).len() == 0
                &&& self.slot_of(m) is None
            } by {
                assert(mid.call_other_names.at(m.0) is None);
                assert(mid.asm_fingerprints.at(m.0) is None);
                assert(mid.call_cc.at(m.0) is None);
                assert(mid.switch_targets.at(m.0) is None);
                assert(mid.stack_phi_offsets.at(m.0) is None);
                assert(mid.stack_offsets.at(m.0) is None);
                assert(self.name_of(m) == mid.name_of(m));
                assert(self.fingerprint(m) == mid.fingerprint(m));
                assert(self.cc_of(m) == mid.cc_of(m));
                assert(self.targets_of(m) == mid.targets_of(m));
                assert(self.phi_offsets_of(m) == mid.phi_offsets_of(m));
                assert(self.slot_of(m) == mid.slot_of(m));
            }
            assert forall|v: ValueId, w: ValueId| #[trigger] remap.value(v) == Some(w) implies {
                &&& #[trigger] self.vn_of(w) == was.vn_of(v)
                &&& self.place(w) == kept_place(was.place(v), remap)
            } by {
                assert(mid.value_vn.at(w.0) == was.value_vn.at(v.0));
                assert(self.vn_of(w) == mid.vn_of(w));
                assert(self.place(w) == kept_place(mid.place(v), remap));
                assert(mid.place(v) == was.place(v));
            }
            assert forall|w: ValueId| !value_image(remap, w) implies {
                &&& (#[trigger] self.vn_of(w)) is None
                &&& self.place(w) == MemPlace::Unknown
            } by {
                assert(mid.value_vn.at(w.0) is None);
                assert(self.vn_of(w) == mid.vn_of(w));
                assert(self.place(w) == MemPlace::Unknown);
            }
            assert forall|id: InitialVnId| #[trigger]
                self.initial_var(id) == (match was.initial_var(id) {
                Some(n) => remap.node(n),
                None => None,
            }) by {
                assert(self.initial_var(id) == mid.initial_var(id));
                assert(mid.initial_var_index.at(id.0) == (match was.initial_var_index.at(id.0) {
                    Some(n) => remap.node(n),
                    None => None,
                }));
            }
            assert forall|c: ArgClass, i: u32| #[trigger] self.carriers(c, i) == kept_values(
                was.carriers(c, i),
                remap,
            ) by {
                assert(self.carriers(c, i) == mid.carriers(c, i));
                assert(listed(&mid.int_args, i) == kept_values(listed(&was.int_args, i), remap));
                assert(listed(&mid.float_args, i) == kept_values(
                    listed(&was.float_args, i),
                    remap,
                ));
            }
            assert forall|a: u64| #[trigger] self.allocator(a) == was.allocator(a) by {
                assert(self.allocator(a) == mid.allocator(a));
            }
        }
    }
}

/// The tables `b` are `a` put through a compaction: entries follow their node
/// or value, and those of dropped ones are gone.
pub open spec fn remapped(a: &SideTables, b: &SideTables, remap: &NodeIdRemap) -> bool {
    &&& forall|n: NodeId, m: NodeId|
        #[trigger] remap.node(n) == Some(m) ==> {
            &&& #[trigger] b.name_of(m) == a.name_of(n)
            &&& b.fingerprint(m) == a.fingerprint(n)
            &&& b.cc_of(m) == a.cc_of(n)
            &&& b.targets_of(m) == a.targets_of(n)
            &&& b.phi_offsets_of(m) == a.phi_offsets_of(n)
            &&& b.slot_of(m) == kept_slot(a.slot_of(n), remap)
        }
    &&& forall|m: NodeId|
        !node_image(remap, m) ==> {
            &&& (#[trigger] b.name_of(m)) is None
            &&& b.fingerprint(m).len() == 0
            &&& b.cc_of(m) is None
            &&& b.targets_of(m).len() == 0
            &&& b.phi_offsets_of(m).len() == 0
            &&& b.slot_of(m) is None
        }
    &&& forall|v: ValueId, w: ValueId|
        #[trigger] remap.value(v) == Some(w) ==> {
            &&& #[trigger] b.vn_of(w) == a.vn_of(v)
            &&& b.place(w) == kept_place(a.place(v), remap)
        }
    &&& forall|w: ValueId|
        !value_image(remap, w) ==> {
            &&& (#[trigger] b.vn_of(w)) is None
            &&& b.place(w) == MemPlace::Unknown
        }
    &&& forall|id: InitialVnId|
        #[trigger] b.initial_var(id) == (match a.initial_var(id) {
            Some(n) => remap.node(n),
            None => None,
        })
    &&& forall|c: ArgClass, i: u32|
        #[trigger] b.carriers(c, i) == kept_values(a.carriers(c, i), remap)
    &&& forall|addr: u64| #[trigger] b.allocator(addr) == a.allocator(addr)
    &&& b.escape() is None
}

/// The decomposition a table holds.
spec fn decomp_in(table: &IdMap<MemDecomp>, v: ValueId) -> MemDecomp {
    match table.at(v.0) {
        Some(d) => d,
        None => MemDecomp::Unknown,
    }
}

/// What a table and its slots know of an address.
spec fn place_in(table: &IdMap<MemDecomp>, slots: Seq<MemSlot>, v: ValueId) -> MemPlace {
    match decomp_in(table, v) {
        MemDecomp::Unknown => MemPlace::Unknown,
        MemDecomp::NotMemory => MemPlace::NotMemory,
        MemDecomp::Stack(id) => MemPlace::Stack(slots[id.0 as int]),
        MemDecomp::Heap(id) => MemPlace::Heap(slots[id.0 as int]),
    }
}

/// Each new slot is an old one with its base translated.
spec fn rebuilt_from(
    slots: Seq<MemSlot>,
    source: Seq<int>,
    old_slots: Seq<MemSlot>,
    remap: &NodeIdRemap,
) -> bool {
    &&& source.len() == slots.len()
    &&& forall|j: int|
        0 <= j < source.len() ==> {
            &&& 0 <= #[trigger] source[j] < old_slots.len()
            &&& remap.value(old_slots[source[j]].base) == Some(slots[j].base)
            &&& old_slots[source[j]].offset == slots[j].offset
        }
}

/// There is room for a new slot that comes from an old one.
proof fn lemma_rebuilt_room(
    slots: Seq<MemSlot>,
    source: Seq<int>,
    old_slots: Seq<MemSlot>,
    remap: &NodeIdRemap,
    from: int,
    moved: MemSlot,
)
    requires
        rebuilt_from(slots, source, old_slots, remap),
        slots.no_duplicates(),
        old_slots.len() <= u32::MAX,
        0 <= from < old_slots.len(),
        remap.value(old_slots[from].base) == Some(moved.base),
        old_slots[from].offset == moved.offset,
    ensures
        slots.len() < u32::MAX || slots.contains(moved),
        !slots.contains(moved) ==> rebuilt_from(
            slots.push(moved),
            source.push(from),
            old_slots,
            remap,
        ),
{
    if !slots.contains(moved) {
        let s2 = source.push(from);
        assert forall|a: int, b: int| 0 <= a < b < s2.len() implies s2[a] != s2[b] by {
            if s2[a] == s2[b] {
                assert(source[a] == s2[a]);
                if b < source.len() {
                    assert(source[b] == s2[b]);
                    assert(slots[a] == slots[b]);
                } else {
                    assert(slots[a] == moved);
                    assert(slots.contains(moved));
                }
            }
        }
        assert forall|j: int| 0 <= j < s2.len() implies 0 <= #[trigger] s2[j]
            < old_slots.len() by {
            if j < source.len() {
                assert(s2[j] == source[j]);
            }
        }
        crate::entity_set::lemma_distinct_ints(s2, old_slots.len());
        let slots2 = slots.push(moved);
        assert forall|j: int| 0 <= j < s2.len() implies {
            &&& 0 <= #[trigger] s2[j] < old_slots.len()
            &&& remap.value(old_slots[s2[j]].base) == Some(slots2[j].base)
            &&& old_slots[s2[j]].offset == slots2[j].offset
        } by {
            if j < source.len() {
                assert(s2[j] == source[j]);
                assert(slots2[j] == slots[j]);
            }
        }
    }
}

/// Some node went to `m`.
pub open spec fn node_image(remap: &NodeIdRemap, m: NodeId) -> bool {
    exists|n: NodeId| #[trigger] remap.node(n) == Some(m)
}

/// Some value went to `w`.
pub open spec fn value_image(remap: &NodeIdRemap, w: ValueId) -> bool {
    exists|v: ValueId| #[trigger] remap.value(v) == Some(w)
}

/// A table by node, translated.
fn by_node<T>(table: IdMap<T>, remap: &NodeIdRemap) -> (r: IdMap<T>)
    requires
        remap.injective(),
        remap.fits(),
    ensures
        forall|n: NodeId, m: NodeId|
            #[trigger] remap.node(n) == Some(m) ==> #[trigger] r.at(m.0) == table.at(n.0),
        forall|m: NodeId| !node_image(remap, m) ==> (#[trigger] r.at(m.0)) is None,
{
    let to = remap.node_table();
    proof {
        assert forall|i: int, j: int|
            0 <= i < to@.len() && 0 <= j < to@.len() && (#[trigger] to@[i]) is Some && to@[i]
                == #[trigger] to@[j] implies i == j by {
            assert(remap.node(NodeId(i as u32)) == remap.node(NodeId(j as u32)));
        }
    }
    let r = table.translated(&to);
    proof {
        assert forall|n: NodeId, m: NodeId| #[trigger]
            remap.node(n) == Some(m) implies #[trigger] r.at(m.0) == table.at(n.0) by {
            if n.0 < to@.len() {
                assert(to@[n.0 as int] == Some(m.0));
            }
        }
        assert forall|m: NodeId| !node_image(remap, m) implies (#[trigger] r.at(m.0)) is None by {
            if r.at(m.0) is Some {
                let k = choose|k: int|
                    0 <= k < to@.len() && k <= u32::MAX && #[trigger] to@[k] == Some(m.0)
                        && table.at(k as u32) == r.at(m.0);
                assert(remap.node(NodeId(k as u32)) == Some(m));
            }
        }
    }
    r
}

/// A table by value, translated.
fn by_value<T>(table: IdMap<T>, remap: &NodeIdRemap) -> (r: IdMap<T>)
    requires
        remap.injective(),
        remap.fits(),
    ensures
        forall|v: ValueId, w: ValueId|
            #[trigger] remap.value(v) == Some(w) ==> #[trigger] r.at(w.0) == table.at(v.0),
        forall|w: ValueId| !value_image(remap, w) ==> (#[trigger] r.at(w.0)) is None,
{
    let to = remap.value_table();
    proof {
        assert forall|i: int, j: int|
            0 <= i < to@.len() && 0 <= j < to@.len() && (#[trigger] to@[i]) is Some && to@[i]
                == #[trigger] to@[j] implies i == j by {
            assert(remap.value(ValueId(i as u32)) == remap.value(ValueId(j as u32)));
        }
    }
    let r = table.translated(&to);
    proof {
        assert forall|v: ValueId, w: ValueId| #[trigger]
            remap.value(v) == Some(w) implies #[trigger] r.at(w.0) == table.at(v.0) by {
            if v.0 < to@.len() {
                assert(to@[v.0 as int] == Some(w.0));
            }
        }
        assert forall|w: ValueId| !value_image(remap, w) implies (
        #[trigger] r.at(w.0)) is None by {
            if r.at(w.0) is Some {
                let k = choose|k: int|
                    0 <= k < to@.len() && k <= u32::MAX && #[trigger] to@[k] == Some(w.0)
                        && table.at(k as u32) == r.at(w.0);
                assert(remap.value(ValueId(k as u32)) == Some(w));
            }
        }
    }
    r
}

/// The kept ones of a list of values, under their new ids.
fn keep_values(vs: &Vec<ValueId>, remap: &NodeIdRemap) -> (r: Vec<ValueId>)
    ensures
        r@ == kept_values(vs@, remap),
{
    let mut r: Vec<ValueId> = Vec::new();
    let mut i: usize = 0;
    assert(vs@.take(0) =~= Seq::<ValueId>::empty());
    while i < vs.len()
        invariant
            i <= vs.len(),
            r@ == kept_values(vs@.take(i as int), remap),
        decreases vs.len() - i,
    {
        proof {
            let next = vs@.take(i + 1);
            assert(next.drop_last() =~= vs@.take(i as int));
            assert(next.last() == vs@[i as int]);
        }
        if let Some(v) = remap.output_old_to_new(vs[i]) {
            r.push(v);
        }
        i += 1;
    }
    assert(vs@.take(i as int) =~= vs@);
    r
}

/// A table of carriers with every list cut down to what was kept.
fn keep_carriers(table: &mut IdMap<Vec<ValueId>>, remap: &NodeIdRemap)
    requires
        no_empty_lists(old(table)),
    ensures
        no_empty_lists(final(table)),
        forall|k: u32|
            #[trigger] listed(final(table), k) == kept_values(listed(old(table), k), remap),
{
    let len = table.len();
    let mut i: usize = 0;
    while i < len && i <= 0xffff_ffff
        invariant
            len == old(table).bound(),
            i <= 0x1_0000_0000,
            no_empty_lists(old(table)),
            no_empty_lists(table),
            forall|k: u32|
                k < i ==> #[trigger] listed(table, k) == kept_values(listed(old(table), k), remap),
            forall|k: u32| k >= i ==> #[trigger] table.at(k) == old(table).at(k),
        decreases len - i,
    {
        let key: u32 = i as u32;
        let ghost before = *table;
        let taken = table.take(key);
        let ghost mid = *table;
        assert(taken == old(table).at(key));
        if let Some(list) = taken {
            let kept = keep_values(&list, remap);
            if kept.len() > 0 {
                table.insert(key, kept);
            } else {
                assert(kept@ =~= Seq::<ValueId>::empty());
            }
        } else {
            assert(kept_values(Seq::<ValueId>::empty(), remap) =~= Seq::<ValueId>::empty());
        }
        proof {
            assert forall|k: u32| k < i + 1 implies #[trigger] listed(table, k) == kept_values(
                listed(old(table), k),
                remap,
            ) by {
                if k < i {
                    assert(listed(&before, k) == kept_values(listed(old(table), k), remap));
                    assert(mid.at(k) == before.at(k));
                    assert(table.at(k) == mid.at(k));
                } else {
                    assert(k == key);
                }
            }
            assert forall|k: u32| k >= i + 1 implies #[trigger] table.at(k) == old(table).at(
                k,
            ) by {
                assert(mid.at(k) == before.at(k));
                assert(before.at(k) == old(table).at(k));
            }
            assert forall|k: u32| (#[trigger] table.at(k)) matches Some(v) ==> v@.len() > 0 by {
                assert(mid.at(k) == before.at(k) || k == key);
            }
        }
        i += 1;
    }
    proof {
        assert forall|k: u32| #[trigger] listed(table, k) == kept_values(
            listed(old(table), k),
            remap,
        ) by {
            if k >= i {
                old(table).lemma_bound(k);
                assert(table.at(k) == old(table).at(k));
                assert(kept_values(Seq::<ValueId>::empty(), remap) =~= Seq::<ValueId>::empty());
            }
        }
    }
}

/// The slots whose base was kept, with the base under its new id.
fn keep_slots(table: &mut IdMap<MemSlot>, remap: &NodeIdRemap)
    ensures
        forall|k: u32| #[trigger] final(table).at(k) == kept_slot(old(table).at(k), remap),
{
    let len = table.len();
    let mut i: usize = 0;
    while i < len && i <= 0xffff_ffff
        invariant
            len == old(table).bound(),
            i <= 0x1_0000_0000,
            forall|k: u32|
                #[trigger] table.at(k) == (if k < i {
                    kept_slot(old(table).at(k), remap)
                } else {
                    old(table).at(k)
                }),
        decreases len - i,
    {
        let key: u32 = i as u32;
        let ghost before = *table;
        if let Some(slot) = table.take(key) {
            if let Some(base) = remap.output_old_to_new(slot.base) {
                table.insert(key, MemSlot { base, offset: slot.offset });
            }
        }
        proof {
            assert forall|k: u32| #[trigger] table.at(k) == (if k < i + 1 {
                kept_slot(old(table).at(k), remap)
            } else {
                old(table).at(k)
            }) by {
                assert(before.at(k) == (if k < i {
                    kept_slot(old(table).at(k), remap)
                } else {
                    old(table).at(k)
                }));
            }
        }
        i += 1;
    }
    proof {
        assert forall|k: u32| #[trigger] table.at(k) == kept_slot(old(table).at(k), remap) by {
            if k >= i {
                old(table).lemma_bound(k);
            }
        }
    }
}

/// The initial-value nodes that were kept, under their new ids.
fn keep_initial_vars(table: &mut IdMap<NodeId>, remap: &NodeIdRemap)
    ensures
        forall|k: u32|
            #[trigger] final(table).at(k) == (match old(table).at(k) {
                Some(n) => remap.node(n),
                None => None,
            }),
{
    let len = table.len();
    let mut i: usize = 0;
    while i < len && i <= 0xffff_ffff
        invariant
            len == old(table).bound(),
            i <= 0x1_0000_0000,
            forall|k: u32|
                #[trigger] table.at(k) == (if k < i {
                    match old(table).at(k) {
                        Some(n) => remap.node(n),
                        None => None,
                    }
                } else {
                    old(table).at(k)
                }),
        decreases len - i,
    {
        let key: u32 = i as u32;
        let ghost before = *table;
        let taken = table.take(key);
        let ghost mid = *table;
        if let Some(n) = taken {
            if let Some(m) = remap.node_old_to_new(n) {
                table.insert(key, m);
            }
        }
        proof {
            assert forall|k: u32| #[trigger] table.at(k) == (if k < i + 1 {
                match old(table).at(k) {
                    Some(n) => remap.node(n),
                    None => None,
                }
            } else {
                old(table).at(k)
            }) by {
                assert(before.at(k) == (if k < i {
                    match old(table).at(k) {
                        Some(n) => remap.node(n),
                        None => None,
                    }
                } else {
                    old(table).at(k)
                }));
                if k != key {
                    assert(mid.at(k) == before.at(k));
                } else {
                    assert(mid.at(k) is None);
                }
            }
        }
        i += 1;
    }
    proof {
        assert forall|k: u32| #[trigger] table.at(k) == (match old(table).at(k) {
            Some(n) => remap.node(n),
            None => None,
        }) by {
            if k >= i {
                old(table).lemma_bound(k);
            }
        }
    }
}

/// Puts a number into its place among ascending ones, if it is not there.
pub(crate) fn insert_ascending(list: &mut Vec<u64>, x: u64)
    requires
        ascending(old(list)@),
    ensures
        ascending(final(list)@),
        forall|a: u64| #[trigger] final(list)@.contains(a) <==> old(list)@.contains(a) || a == x,
{
    let ghost s = list@;
    let mut i: usize = 0;
    while i < list.len() && list[i] < x
        invariant
            i <= list.len(),
            list@ == s,
            ascending(s),
            forall|k: int| 0 <= k < i ==> s[k] < x,
        decreases list.len() - i,
    {
        i += 1;
    }
    if i < list.len() && list[i] == x {
        assert(s[i as int] == x);
        return ;
    }
    list.insert(i, x);
    proof {
        let t = list@;
        assert(t =~= s.insert(i as int, x));
        assert forall|a: u64| #[trigger] t.contains(a) <==> s.contains(a) || a == x by {
            if s.contains(a) {
                let k = s.index_of(a);
                if k < i {
                    assert(t[k] == a);
                } else {
                    assert(t[k + 1] == a);
                }
            }
            if a == x {
                assert(t[i as int] == a);
            }
            if t.contains(a) {
                let k = t.index_of(a);
                if k < i {
                    assert(s[k] == a);
                } else if k > i {
                    assert(s[k - 1] == a);
                }
            }
        }
    }
}

/// Ascending sequences of the same numbers are the same.
pub proof fn lemma_ascending_unique(a: Seq<u64>, b: Seq<u64>)
    requires
        ascending(a),
        ascending(b),
        forall|x: u64| #[trigger] a.contains(x) <==> b.contains(x),
    ensures
        a == b,
    decreases a.len(),
{
    if a.len() == 0 {
        if b.len() > 0 {
            assert(b.contains(b[0]));
            assert(a.contains(b[0]));
        }
        assert(a =~= b);
    } else {
        assert(a.contains(a[0]));
        assert(b.contains(a[0]));
        let x = a.last();
        let y = b.last();
        assert(b.len() > 0);
        assert(a[a.len() - 1] == x && b[b.len() - 1] == y);
        assert(a.contains(x) && b.contains(y));
        assert(b.contains(x));
        assert(a.contains(y));
        let i = b.index_of(x);
        let j = a.index_of(y);
        assert(b[i] == x && a[j] == y);
        assert(x == y) by {
            if i < b.len() - 1 {
                assert(b[i] < b[b.len() - 1]);
            }
            if j < a.len() - 1 {
                assert(a[j] < a[a.len() - 1]);
            }
        }
        let c = a.drop_last();
        let d = b.drop_last();
        assert forall|z: u64| #[trigger] c.contains(z) <==> d.contains(z) by {
            if c.contains(z) {
                let k = c.index_of(z);
                assert(a[k] == z);
                assert(a[k] < a[a.len() - 1]);
                assert(a.contains(z));
                assert(b.contains(z));
                let m = b.index_of(z);
                assert(d[m] == z);
            }
            if d.contains(z) {
                let k = d.index_of(z);
                assert(b[k] == z);
                assert(b[k] < b[b.len() - 1]);
                assert(b.contains(z));
                assert(a.contains(z));
                let m = a.index_of(z);
                assert(c[m] == z);
            }
        }
        lemma_ascending_unique(c, d);
        assert(a =~= c.push(x));
        assert(b =~= d.push(y));
    }
}

proof fn lemma_push_contains(s: Seq<u64>, x: u64, a: u64)
    ensures
        s.push(x).contains(a) <==> s.contains(a) || a == x,
{
    if s.contains(a) {
        let k = s.index_of(a);
        assert(s.push(x)[k] == a);
    }
    if a == x {
        assert(s.push(x)[s.len() as int] == a);
    }
    if s.push(x).contains(a) {
        let k = s.push(x).index_of(a);
        if k < s.len() {
            assert(s[k] == a);
        }
    }
}

proof fn lemma_concat_contains(s: Seq<ValueId>, t: Seq<ValueId>, a: ValueId)
    ensures
        (s + t).contains(a) <==> s.contains(a) || t.contains(a),
{
    let w = s + t;
    if s.contains(a) {
        let k = s.index_of(a);
        assert(w[k] == a);
    }
    if t.contains(a) {
        let k = t.index_of(a);
        assert(w[s.len() + k] == a);
    }
    if w.contains(a) {
        let k = w.index_of(a);
        if k < s.len() {
            assert(s[k] == a);
        } else {
            assert(t[k - s.len()] == a);
        }
    }
}

} // verus!
