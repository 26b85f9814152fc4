//! The entity arenas, each a `cranelift_entity::PrimaryMap`.

use crate::mem_partition::{MemPartitionId, PartitionInfo};
use crate::node::{NodeId, NodeKind, SwitchTableId, UseId, ValueId, ValueKind};
use cranelift_entity::PrimaryMap;
use vstd::prelude::*;

verus! {

/// A node as it is stored.
pub struct NodeData {
    pub kind: NodeKind,
    pub inputs: Vec<UseId>,
    pub outputs: Vec<ValueId>,
}

/// A node: its kind, its input slots and its outputs, each in order.
#[verifier::ext_equal]
pub struct NodeModel {
    pub kind: NodeKind,
    pub inputs: Seq<UseId>,
    pub outputs: Seq<ValueId>,
}

impl View for NodeData {
    type V = NodeModel;

    open spec fn view(&self) -> NodeModel {
        NodeModel { kind: self.kind, inputs: self.inputs@, outputs: self.outputs@ }
    }
}

/// A value as it is stored: `first_use` heads the list of its uses.
#[derive(Clone, Copy)]
pub struct ValueData {
    pub kind: ValueKind,
    pub source: NodeId,
    pub index: u32,
    pub first_use: Option<UseId>,
}

/// An input slot as it is stored: `prev` and `next` chain the slots that read
/// the same value.
#[derive(Clone, Copy)]
pub struct UseData {
    pub value: ValueId,
    pub node: NodeId,
    pub index: u32,
    pub prev: Option<UseId>,
    pub next: Option<UseId>,
}

/// The nodes, in id order.
#[verifier::external_body]
pub struct NodeArena {
    map: PrimaryMap<NodeId, NodeData>,
}

/// The nodes an arena holds, in id order.
pub uninterp spec fn arena_nodes(arena: NodeArena) -> Seq<NodeModel>;

impl View for NodeArena {
    type V = Seq<NodeModel>;

    open spec fn view(&self) -> Seq<NodeModel> {
        arena_nodes(*self)
    }
}

impl NodeArena {
    /// `PrimaryMap::new`: an arena without entries.
    #[verifier::external_body]
    pub(crate) fn new() -> (r: NodeArena)
        ensures
            arena_nodes(r) == Seq::<NodeModel>::empty(),
    {
        NodeArena { map: PrimaryMap::new() }
    }

    /// `PrimaryMap::len`: the number of entries.
    #[verifier::external_body]
    pub(crate) fn len(&self) -> (r: usize)
        ensures
            r == arena_nodes(*self).len(),
    {
        self.map.len()
    }

    /// `PrimaryMap::push`: appends, and returns the key of the new entry, which
    /// is the number of entries there were. Keys are 32 bits wide.
    #[verifier::external_body]
    pub(crate) fn push(&mut self, data: NodeData) -> (r: NodeId)
        requires
            arena_nodes(*old(self)).len() < 0xffff_ffff,
        ensures
            r.0 == arena_nodes(*old(self)).len(),
            arena_nodes(*final(self)) == arena_nodes(*old(self)).push(data@),
    {
        self.map.push(data)
    }

    /// `PrimaryMap::index`: the entry under a key the arena holds.
    #[verifier::external_body]
    pub(crate) fn at(&self, id: NodeId) -> (r: &NodeData)
        requires
            id.0 < arena_nodes(*self).len(),
        ensures
            r@ == arena_nodes(*self)[id.0 as int],
    {
        &self.map[id]
    }

    /// `PrimaryMap::index_mut`: the entry under a key the arena holds, to be
    /// changed in place; the other entries stay.
    #[verifier::external_body]
    pub(crate) fn at_mut(&mut self, id: NodeId) -> (r: &mut NodeData)
        requires
            id.0 < arena_nodes(*old(self)).len(),
        ensures
            (*r)@ == arena_nodes(*old(self))[id.0 as int],
            arena_nodes(*final(self)) == arena_nodes(*old(self)).update(
                id.0 as int,
                (*final(r))@,
            ),
    {
        &mut self.map[id]
    }
}

/// The values, in id order.
#[verifier::external_body]
pub struct ValueArena {
    map: PrimaryMap<ValueId, ValueData>,
}

/// The values an arena holds, in id order.
pub uninterp spec fn arena_values(arena: ValueArena) -> Seq<ValueData>;

impl View for ValueArena {
    type V = Seq<ValueData>;

    open spec fn view(&self) -> Seq<ValueData> {
        arena_values(*self)
    }
}

impl ValueArena {
    /// `PrimaryMap::new`: an arena without entries.
    #[verifier::external_body]
    pub(crate) fn new() -> (r: ValueArena)
        ensures
            arena_values(r) == Seq::<ValueData>::empty(),
    {
        ValueArena { map: PrimaryMap::new() }
    }

    /// `PrimaryMap::len`: the number of entries.
    #[verifier::external_body]
    pub(crate) fn len(&self) -> (r: usize)
        ensures
            r == arena_values(*self).len(),
    {
        self.map.len()
    }

    /// `PrimaryMap::push`: appends, and returns the key of the new entry, which
    /// is the number of entries there were. Keys are 32 bits wide.
    #[verifier::external_body]
    pub(crate) fn push(&mut self, data: ValueData) -> (r: ValueId)
        requires
            arena_values(*old(self)).len() < 0xffff_ffff,
        ensures
            r.0 == arena_values(*old(self)).len(),
            arena_values(*final(self)) == arena_values(*old(self)).push(data),
    {
        self.map.push(data)
    }

    /// `PrimaryMap::index`: the entry under a key the arena holds.
    #[verifier::external_body]
    pub(crate) fn at(&self, id: ValueId) -> (r: &ValueData)
        requires
            id.0 < arena_values(*self).len(),
        ensures
            *r == arena_values(*self)[id.0 as int],
    {
        &self.map[id]
    }

    /// `PrimaryMap::index_mut`: the entry under a key the arena holds, to be
    /// changed in place; the other entries stay.
    #[verifier::external_body]
    pub(crate) fn at_mut(&mut self, id: ValueId) -> (r: &mut ValueData)
        requires
            id.0 < arena_values(*old(self)).len(),
        ensures
            *r == arena_values(*old(self))[id.0 as int],
            arena_values(*final(self)) == arena_values(*old(self)).update(
                id.0 as int,
                *final(r),
            ),
    {
        &mut self.map[id]
    }
}

/// The input slots, in id order.
#[verifier::external_body]
pub struct UseArena {
    map: PrimaryMap<UseId, UseData>,
}

/// The input slots an arena holds, in id order.
pub uninterp spec fn arena_uses(arena: UseArena) -> Seq<UseData>;

impl View for UseArena {
    type V = Seq<UseData>;

    open spec fn view(&self) -> Seq<UseData> {
        arena_uses(*self)
    }
}

impl UseArena {
    /// `PrimaryMap::new`: an arena without entries.
    #[verifier::external_body]
    pub(crate) fn new() -> (r: UseArena)
        ensures
            arena_uses(r) == Seq::<UseData>::empty(),
    {
        UseArena { map: PrimaryMap::new() }
    }

    /// `PrimaryMap::len`: the number of entries.
    #[verifier::external_body]
    pub(crate) fn len(&self) -> (r: usize)
        ensures
            r == arena_uses(*self).len(),
    {
        self.map.len()
    }

    /// `PrimaryMap::push`: appends, and returns the key of the new entry, which
    /// is the number of entries there were. Keys are 32 bits wide.
    #[verifier::external_body]
    pub(crate) fn push(&mut self, data: UseData) -> (r: UseId)
        requires
            arena_uses(*old(self)).len() < 0xffff_ffff,
        ensures
            r.0 == arena_uses(*old(self)).len(),
            arena_uses(*final(self)) == arena_uses(*old(self)).push(data),
    {
        self.map.push(data)
    }

    /// `PrimaryMap::index`: the entry under a key the arena holds.
    #[verifier::external_body]
    pub(crate) fn at(&self, id: UseId) -> (r: &UseData)
        requires
            id.0 < arena_uses(*self).len(),
        ensures
            *r == arena_uses(*self)[id.0 as int],
    {
        &self.map[id]
    }

    /// `PrimaryMap::index_mut`: the entry under a key the arena holds, to be
    /// changed in place; the other entries stay.
    #[verifier::external_body]
    pub(crate) fn at_mut(&mut self, id: UseId) -> (r: &mut UseData)
        requires
            id.0 < arena_uses(*old(self)).len(),
        ensures
            *r == arena_uses(*old(self))[id.0 as int],
            arena_uses(*final(self)) == arena_uses(*old(self)).update(id.0 as int, *final(r)),
    {
        &mut self.map[id]
    }
}

/// The case tables of the switches, in id order.
#[verifier::external_body]
pub struct SwitchTableArena {
    map: PrimaryMap<SwitchTableId, Vec<u64>>,
}

/// The tables an arena holds, in id order.
pub uninterp spec fn arena_tables(arena: SwitchTableArena) -> Seq<Seq<u64>>;

impl View for SwitchTableArena {
    type V = Seq<Seq<u64>>;

    open spec fn view(&self) -> Seq<Seq<u64>> {
        arena_tables(*self)
    }
}

impl SwitchTableArena {
    /// `PrimaryMap::new`: an arena without entries.
    #[verifier::external_body]
    pub(crate) fn new() -> (r: SwitchTableArena)
        ensures
            arena_tables(r) == Seq::<Seq<u64>>::empty(),
    {
        SwitchTableArena { map: PrimaryMap::new() }
    }

    /// `PrimaryMap::len`: the number of entries.
    #[verifier::external_body]
    pub(crate) fn len(&self) -> (r: usize)
        ensures
            r == arena_tables(*self).len(),
    {
        self.map.len()
    }

    /// `PrimaryMap::push`: appends, and returns the key of the new entry, which
    /// is the number of entries there were. Keys are 32 bits wide.
    #[verifier::external_body]
    pub(crate) fn push(&mut self, targets: Vec<u64>) -> (r: SwitchTableId)
        requires
            arena_tables(*old(self)).len() < 0xffff_ffff,
        ensures
            r.0 == arena_tables(*old(self)).len(),
            arena_tables(*final(self)) == arena_tables(*old(self)).push(targets@),
    {
        self.map.push(targets)
    }

    /// `PrimaryMap::index`: the entry under a key the arena holds.
    #[verifier::external_body]
    pub(crate) fn at(&self, id: SwitchTableId) -> (r: &Vec<u64>)
        requires
            id.0 < arena_tables(*self).len(),
        ensures
            r@ == arena_tables(*self)[id.0 as int],
    {
        &self.map[id]
    }
}

/// The memory partitions, in id order.
#[verifier::external_body]
pub struct PartitionArena {
    map: PrimaryMap<MemPartitionId, PartitionInfo>,
}

/// The partitions an arena holds, in id order.
pub uninterp spec fn arena_partitions(arena: PartitionArena) -> Seq<PartitionInfo>;

impl View for PartitionArena {
    type V = Seq<PartitionInfo>;

    open spec fn view(&self) -> Seq<PartitionInfo> {
        arena_partitions(*self)
    }
}

impl PartitionArena {
    /// `PrimaryMap::new`: an arena without entries.
    #[verifier::external_body]
    pub(crate) fn new() -> (r: PartitionArena)
        ensures
            arena_partitions(r) == Seq::<PartitionInfo>::empty(),
    {
        PartitionArena { map: PrimaryMap::new() }
    }

    /// `PrimaryMap::len`: the number of entries.
    #[verifier::external_body]
    pub(crate) fn len(&self) -> (r: usize)
        ensures
            r == arena_partitions(*self).len(),
    {
        self.map.len()
    }

    /// `PrimaryMap::push`: appends, and returns the key of the new entry, which
    /// is the number of entries there were. Keys are 32 bits wide.
    #[verifier::external_body]
    pub(crate) fn push(&mut self, info: PartitionInfo) -> (r: MemPartitionId)
        requires
            arena_partitions(*old(self)).len() < 0xffff_ffff,
        ensures
            r.0 == arena_partitions(*old(self)).len(),
            arena_partitions(*final(self)) == arena_partitions(*old(self)).push(info),
    {
        self.map.push(info)
    }

    /// `PrimaryMap::index`: the entry under a key the arena holds.
    #[verifier::external_body]
    pub(crate) fn at(&self, id: MemPartitionId) -> (r: &PartitionInfo)
        requires
            id.0 < arena_partitions(*self).len(),
        ensures
            *r == arena_partitions(*self)[id.0 as int],
    {
        &self.map[id]
    }
}

} // verus!
