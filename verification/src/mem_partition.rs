//! Memory partitions: what kind of memory a node touches.

use crate::arena::PartitionArena;
use vstd::prelude::*;

verus! {

/// A partition of a [`PartitionTable`]; it stays what it is.
#[derive(Clone, Copy, PartialEq, Eq, Structural, Debug, Hash)]
pub struct MemPartitionId(pub u32);

impl cranelift_entity::EntityRef for MemPartitionId {
    fn new(index: usize) -> Self {
        MemPartitionId(index as u32)
    }

    fn index(self) -> usize {
        self.0 as usize
    }
}

/// What kind of memory a partition covers.
#[derive(Clone, Copy, PartialEq, Eq, Structural, Debug, Hash)]
pub enum AliasClass {
    /// The stack frame.
    Stack,
    /// Heap and global memory.
    Heap,
    /// Memory that a read-only image backs.
    Rom,
    /// Nothing is known: it aliases everything.
    Unknown,
}

impl AliasClass {
    /// Position in the declaration.
    pub open spec fn ordinal(self) -> u64 {
        match self {
            AliasClass::Stack => 0,
            AliasClass::Heap => 1,
            AliasClass::Rom => 2,
            AliasClass::Unknown => 3,
        }
    }

    pub(crate) fn code(self) -> (r: u64)
        ensures
            r == self.ordinal(),
    {
        match self {
            AliasClass::Stack => 0,
            AliasClass::Heap => 1,
            AliasClass::Rom => 2,
            AliasClass::Unknown => 3,
        }
    }

    pub open spec fn name(self) -> Seq<char> {
        match self {
            AliasClass::Stack => "Stack"@,
            AliasClass::Heap => "Heap"@,
            AliasClass::Rom => "Rom"@,
            AliasClass::Unknown => "Unknown"@,
        }
    }

    pub fn as_str(self) -> (r: &'static str)
        ensures
            r@ == self.name(),
    {
        match self {
            AliasClass::Stack => "Stack",
            AliasClass::Heap => "Heap",
            AliasClass::Rom => "Rom",
            AliasClass::Unknown => "Unknown",
        }
    }
}

/// What is known of a partition.
#[derive(Clone, Copy, PartialEq, Eq, Structural, Debug)]
pub struct PartitionInfo {
    pub alias_class: AliasClass,
    pub read_only: bool,
}

/// The partitions of a function.
pub struct PartitionTable {
    info: PartitionArena,
}

/// A partition of the given class: only `Rom` is read-only.
pub open spec fn partition_of(alias_class: AliasClass) -> PartitionInfo {
    PartitionInfo { alias_class, read_only: alias_class == AliasClass::Rom }
}

impl View for PartitionTable {
    type V = Seq<PartitionInfo>;

    closed spec fn view(&self) -> Seq<PartitionInfo> {
        self.info@
    }
}

impl PartitionTable {
    /// The table without partitions.
    pub fn new() -> (r: PartitionTable)
        ensures
            r@ == Seq::<PartitionInfo>::empty(),
    {
        PartitionTable { info: PartitionArena::new() }
    }

    /// Adds a partition of the given class.
    pub fn create(&mut self, alias_class: AliasClass) -> (r: MemPartitionId)
        requires
            old(self)@.len() < u32::MAX,
        ensures
            r.0 == old(self)@.len(),
            final(self)@ == old(self)@.push(partition_of(alias_class)),
    {
        let read_only = alias_class == AliasClass::Rom;
        self.info.push(PartitionInfo { alias_class, read_only })
    }

    /// What is known of a partition.
    pub fn info(&self, id: MemPartitionId) -> (r: &PartitionInfo)
        requires
            id.0 < self@.len(),
        ensures
            *r == self@[id.0 as int],
    {
        self.info.at(id)
    }

    /// The partitions with their ids, in id order.
    pub fn iter(&self) -> (r: Vec<(MemPartitionId, PartitionInfo)>)
        requires
            self@.len() <= u32::MAX,
        ensures
            r@.len() == self@.len(),
            forall|i: int|
                0 <= i < r@.len() ==> (#[trigger] r@[i]).0.0 == i && r@[i].1 == self@[i],
    {
        let mut r: Vec<(MemPartitionId, PartitionInfo)> = Vec::new();
        let mut i: usize = 0;
        while i < self.len()
            invariant
                self@.len() <= u32::MAX,
                i <= self@.len(),
                r@.len() == i,
                forall|k: int| 0 <= k < i ==> (#[trigger] r@[k]).0.0 == k && r@[k].1 == self@[k],
            decreases self@.len() - i,
        {
            let id = MemPartitionId(i as u32);
            r.push((id, *self.info(id)));
            i += 1;
        }
        r
    }

    /// The number of partitions.
    pub fn len(&self) -> (r: usize)
        ensures
            r == self@.len(),
    {
        self.info.len()
    }

    /// Whether there is no partition.
    pub fn is_empty(&self) -> (r: bool)
        ensures
            r == (self@.len() == 0),
    {
        self.info.len() == 0
    }
}

/// A partition keeps its id and what is known of it when others are added.
pub proof fn law_partitions_stay(table: Seq<PartitionInfo>, class: AliasClass, id: int)
    requires
        0 <= id < table.len(),
    ensures
        table.push(partition_of(class))[id] == table[id],
        table.push(partition_of(class)).len() != id,
{
}

} // verus!
