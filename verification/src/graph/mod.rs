//! The sea-of-nodes graph: arenas of nodes, values and input slots, an
//! intrusive use list per value, and a dedup cache over node structure.

pub mod access;
pub mod compact;
pub mod duplicate;
pub mod laws;
pub mod model;
pub mod policy;
pub mod postorder;
pub mod reach_laws;
pub mod reader_laws;
pub mod sharing;
pub mod store;
pub mod uses;
pub mod walk;

use crate::arena::{NodeArena, UseArena, UseData, ValueArena, ValueData};
use crate::cache::DedupTable;
use crate::node::UseId;
use model::{GraphModel, UseModel, ValueModel};
use vstd::prelude::*;

verus! {

/// The graph. Every value heads a doubly linked list of the input slots that
/// read it; `lists` is what those links spell.
pub struct Graph {
    nodes: NodeArena,
    values: ValueArena,
    uses: UseArena,
    node_to_id: DedupTable,
    generation: u64,
    lists: Ghost<Seq<Seq<UseId>>>,
}

impl ValueData {
    pub open spec fn model(self) -> ValueModel {
        ValueModel { kind: self.kind, source: self.source, index: self.index }
    }
}

impl UseData {
    pub open spec fn model(self) -> UseModel {
        UseModel { value: self.value, node: self.node, index: self.index }
    }
}

impl View for Graph {
    type V = GraphModel;

    closed spec fn view(&self) -> GraphModel {
        GraphModel {
            nodes: self.nodes@,
            values: Seq::new(self.values@.len(), |i: int| self.values@[i].model()),
            uses: Seq::new(self.uses@.len(), |i: int| self.uses@[i].model()),
            lists: self.lists@,
            cache: self.node_to_id@,
            generation: self.generation,
        }
    }
}

/// The slot before position `i` of a list.
pub(crate) open spec fn before(list: Seq<UseId>, i: int) -> Option<UseId> {
    if 0 < i <= list.len() {
        Some(list[i - 1])
    } else {
        None
    }
}

/// The slot at position `i` of a list.
pub(crate) open spec fn item(list: Seq<UseId>, i: int) -> Option<UseId> {
    if 0 <= i < list.len() {
        Some(list[i])
    } else {
        None
    }
}

impl Graph {
    /// The links of the `i`-th slot of `v`'s list are those its place asks for.
    spec fn link_ok(&self, v: int, i: int) -> bool {
        let u = self.lists@[v][i];
        &&& u.0 < self.uses@.len()
        &&& self.uses@[u.0 as int].value.0 == v
        &&& self.uses@[u.0 as int].prev == before(self.lists@[v], i)
        &&& self.uses@[u.0 as int].next == item(self.lists@[v], i + 1)
    }

    /// The links spell the lists.
    #[verifier::opaque]
    spec fn chained(&self) -> bool {
        &&& self.lists@.len() == self.values@.len()
        &&& forall|v: int|
            0 <= v < self.lists@.len() ==> (#[trigger] self.lists@[v]).no_duplicates()
        &&& forall|v: int|
            #![trigger self.lists@[v]]
            0 <= v < self.lists@.len() ==> self.values@[v].first_use == item(self.lists@[v], 0)
        &&& forall|v: int, i: int|
            #![trigger self.lists@[v][i]]
            0 <= v < self.lists@.len() && 0 <= i < self.lists@[v].len() ==> self.link_ok(v, i)
    }

    /// The graph is well formed: its model is, and the links spell its lists.
    pub closed spec fn wf(&self) -> bool {
        self@.valid() && self.chained()
    }

    /// A well-formed graph has a valid model.
    pub broadcast proof fn lemma_wf_valid(&self)
        requires
            #[trigger] self.wf(),
        ensures
            self@.valid(),
    {
    }

    /// The graph without nodes.
    pub fn new() -> (r: Graph)
        ensures
            r.wf(),
            r@.nodes.len() == 0,
            r@.values.len() == 0,
            r@.uses.len() == 0,
            r@.cache.is_empty(),
            r@.generation == 0,
    {
        let g = Graph {
            nodes: NodeArena::new(),
            values: ValueArena::new(),
            uses: UseArena::new(),
            node_to_id: DedupTable::new(),
            generation: 0,
            lists: Ghost(Seq::empty()),
        };
        reveal(Graph::chained);
        assert forall|key: Seq<u64>| #[trigger] g@.cache.contains_key(key) implies g@.entry_ok(
            key,
        ) by {
            assert(g@.cache.dom().contains(key));
        }
        g
    }
}

} // verus!
