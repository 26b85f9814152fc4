//! Compaction: rebuilds the graph over the nodes that are kept, and says where
//! each id went.

use super::model::{
    lemma_with_input_valid, lemma_with_node_valid, lemma_with_output_valid, GraphModel,
};
use super::walk::{feeds, lemma_reachable_step, reachable, steps_to, walk_order};
use super::Graph;
use crate::entity_set::lemma_distinct_ints;
use crate::node::{NodeId, UseId, ValueId};
use vstd::prelude::*;

verus! {

/// Where each id went in a compaction; an id that was dropped went nowhere.
pub struct NodeIdRemap {
    nodes: Vec<Option<NodeId>>,
    values: Vec<Option<ValueId>>,
    uses: Vec<Option<UseId>>,
}

impl NodeIdRemap {
    /// Where a node went.
    pub closed spec fn node(&self, old_id: NodeId) -> Option<NodeId> {
        if old_id.0 < self.nodes@.len() {
            self.nodes@[old_id.0 as int]
        } else {
            None
        }
    }

    /// Where a value went.
    pub closed spec fn value(&self, old_id: ValueId) -> Option<ValueId> {
        if old_id.0 < self.values@.len() {
            self.values@[old_id.0 as int]
        } else {
            None
        }
    }

    /// Where an input slot went.
    pub closed spec fn slot(&self, old_id: UseId) -> Option<UseId> {
        if old_id.0 < self.uses@.len() {
            self.uses@[old_id.0 as int]
        } else {
            None
        }
    }

    /// The number of node ids there were.
    pub closed spec fn old_node_count(&self) -> nat {
        self.nodes@.len()
    }

    /// No two nodes, and no two values, went to one place.
    pub open spec fn injective(&self) -> bool {
        &&& forall|n: NodeId, m: NodeId|
            (#[trigger] self.node(n)) is Some && self.node(n) == #[trigger] self.node(m) ==> n == m
        &&& forall|v: ValueId, w: ValueId|
            (#[trigger] self.value(v)) is Some && self.value(v) == #[trigger] self.value(w) ==> v
                == w
    }

    /// Where each node went, by old id.
    pub(crate) fn node_table(&self) -> (r: Vec<Option<u32>>)
        ensures
            r@.len() == self.node_slots(),
            forall|i: int|
                0 <= i < r@.len() && i <= u32::MAX ==> #[trigger] r@[i] == (match self.node(
                    NodeId(i as u32),
                ) {
                    Some(m) => Some(m.0),
                    None => None,
                }),
            forall|n: NodeId| n.0 >= r@.len() ==> (#[trigger] self.node(n)) is None,
    {
        let mut r: Vec<Option<u32>> = Vec::new();
        let mut i: usize = 0;
        while i < self.nodes.len()
            invariant
                i <= self.nodes.len(),
                r@.len() == i,
                forall|k: int|
                    0 <= k < r@.len() && k <= u32::MAX ==> #[trigger] r@[k] == (match self.node(
                        NodeId(k as u32),
                    ) {
                        Some(m) => Some(m.0),
                        None => None,
                    }),
            decreases self.nodes.len() - i,
        {
            match self.nodes[i] {
                Some(m) => r.push(Some(m.0)),
                None => r.push(None),
            }
            i += 1;
        }
        r
    }

    /// Where each value went, by old id.
    pub(crate) fn value_table(&self) -> (r: Vec<Option<u32>>)
        ensures
            r@.len() == self.value_slots(),
            forall|i: int|
                0 <= i < r@.len() && i <= u32::MAX ==> #[trigger] r@[i] == (match self.value(
                    ValueId(i as u32),
                ) {
                    Some(m) => Some(m.0),
                    None => None,
                }),
            forall|v: ValueId| v.0 >= r@.len() ==> (#[trigger] self.value(v)) is None,
    {
        let mut r: Vec<Option<u32>> = Vec::new();
        let mut i: usize = 0;
        while i < self.values.len()
            invariant
                i <= self.values.len(),
                r@.len() == i,
                forall|k: int|
                    0 <= k < r@.len() && k <= u32::MAX ==> #[trigger] r@[k] == (match self.value(
                        ValueId(k as u32),
                    ) {
                        Some(m) => Some(m.0),
                        None => None,
                    }),
            decreases self.values.len() - i,
        {
            match self.values[i] {
                Some(m) => r.push(Some(m.0)),
                None => r.push(None),
            }
            i += 1;
        }
        r
    }

    pub(crate) closed spec fn node_slots(&self) -> nat {
        self.nodes@.len()
    }

    pub(crate) closed spec fn value_slots(&self) -> nat {
        self.values@.len()
    }

    /// The tables are no longer than there are ids.
    pub(crate) open spec fn fits(&self) -> bool {
        self.node_slots() <= u32::MAX && self.value_slots() <= u32::MAX
    }

    /// The new id of a node, if it was kept.
    pub fn node_old_to_new(&self, old_id: NodeId) -> (r: Option<NodeId>)
        ensures
            r == self.node(old_id),
    {
        let i: usize = old_id.0 as usize;
        if i < self.nodes.len() {
            self.nodes[i]
        } else {
            None
        }
    }

    /// The new id of a value, if its node was kept.
    pub fn output_old_to_new(&self, old_id: ValueId) -> (r: Option<ValueId>)
        ensures
            r == self.value(old_id),
    {
        let i: usize = old_id.0 as usize;
        if i < self.values.len() {
            self.values[i]
        } else {
            None
        }
    }

    /// The new id of an input slot, if its node was kept.
    pub fn input_old_to_new(&self, old_id: UseId) -> (r: Option<UseId>)
        ensures
            r == self.slot(old_id),
    {
        let i: usize = old_id.0 as usize;
        if i < self.uses.len() {
            self.uses[i]
        } else {
            None
        }
    }

    /// The kept nodes with their new ids, in the order of the old ids.
    pub fn surviving_node_pairs(&self) -> (r: Vec<(NodeId, NodeId)>)
        requires
            self.old_node_count() <= u32::MAX,
        ensures
            forall|i: int|
                0 <= i < r@.len() ==> self.node((#[trigger] r@[i]).0) == Some(r@[i].1),
            forall|n: NodeId, m: NodeId|
                #[trigger] r@.contains((n, m)) <==> self.node(n) == Some(m),
            forall|i: int, j: int| 0 <= i < j < r@.len() ==> r@[i].0.0 < r@[j].0.0,
    {
        let mut r: Vec<(NodeId, NodeId)> = Vec::new();
        let mut i: usize = 0;
        while i < self.nodes.len()
            invariant
                self.nodes@.len() <= u32::MAX,
                i <= self.nodes.len(),
                forall|k: int|
                    0 <= k < r@.len() ==> (#[trigger] r@[k]).0.0 < i && self.node(r@[k].0) == Some(
                        r@[k].1,
                    ),
                forall|n: NodeId, m: NodeId|
                    n.0 < i && self.node(n) == Some(m) ==> #[trigger] r@.contains((n, m)),
                forall|k: int, j: int| 0 <= k < j < r@.len() ==> r@[k].0.0 < r@[j].0.0,
            decreases self.nodes.len() - i,
        {
            let ghost before = r@;
            if let Some(to) = self.nodes[i] {
                r.push((NodeId(i as u32), to));
                assert(r@[before.len() as int] == (NodeId(i as u32), to));
            }
            proof {
                assert forall|n: NodeId, m: NodeId|
                    n.0 < i + 1 && self.node(n) == Some(m) implies #[trigger] r@.contains(
                    (n, m),
                ) by {
                    if n.0 < i {
                        assert(before.contains((n, m)));
                        let k = before.index_of((n, m));
                        assert(r@[k] == (n, m));
                    } else {
                        assert(n == NodeId(i as u32));
                    }
                }
            }
            i += 1;
        }
        proof {
            assert forall|n: NodeId, m: NodeId| #[trigger] r@.contains((n, m)) implies self.node(n)
                == Some(m) by {
                let k = r@.index_of((n, m));
                assert(r@[k] == (n, m));
            }
        }
        r
    }
}

/// `h` is `g` cut down to the nodes of `order`, numbered by their place there:
/// every kept node has the kind it had, and reads and defines what it did,
/// under the new ids.
pub open spec fn retained(
    g: GraphModel,
    h: GraphModel,
    order: Seq<NodeId>,
    remap: &NodeIdRemap,
) -> bool {
    &&& h.nodes.len() == order.len()
    &&& forall|k: int|
        0 <= k < order.len() ==> remap.node(#[trigger] order[k]) == Some(NodeId(k as u32))
    &&& forall|n: NodeId| (#[trigger] remap.node(n)) is Some ==> order.contains(n)
    &&& forall|k: int|
        0 <= k < order.len() ==> kept_node(g, h, #[trigger] order[k], NodeId(k as u32), remap)
    &&& forall|v: ValueId|
        (#[trigger] remap.value(v)) is Some <==> g.has_value(v) && order.contains(g.producer(v))
    &&& forall|v: ValueId|
        (#[trigger] remap.value(v)) matches Some(w) ==> {
            &&& h.has_value(w)
            &&& h.value_kind(w) == g.value_kind(v)
            &&& Some(h.producer(w)) == remap.node(g.producer(v))
        }
    &&& forall|v: ValueId, w: ValueId|
        (#[trigger] remap.value(v)) is Some && remap.value(v) == #[trigger] remap.value(w) ==> v
            == w
}

/// Node `m` of `h` is node `n` of `g` under the new ids.
pub open spec fn kept_node(
    g: GraphModel,
    h: GraphModel,
    n: NodeId,
    m: NodeId,
    remap: &NodeIdRemap,
) -> bool {
    &&& h.kind(m) == g.kind(n)
    &&& h.out_kinds(m) == g.out_kinds(n)
    &&& h.ins(m).len() == g.ins(n).len()
    &&& h.outs(m).len() == g.outs(n).len()
    &&& forall|i: int|
        0 <= i < g.outs(n).len() ==> remap.value(#[trigger] g.outs(n)[i]) == Some(h.outs(m)[i])
    &&& forall|i: int|
        0 <= i < g.ins(n).len() ==> remap.value(#[trigger] g.ins(n)[i]) == Some(h.ins(m)[i])
    &&& forall|i: int|
        0 <= i < g.slots(n).len() ==> remap.slot(#[trigger] g.slots(n)[i]) == Some(h.slots(m)[i])
}

/// `order` lists nodes of `g`, each once, and with a node those it reads from.
pub open spec fn closed_order(g: GraphModel, order: Seq<NodeId>) -> bool {
    &&& order.no_duplicates()
    &&& forall|k: int| 0 <= k < order.len() ==> g.has_node(#[trigger] order[k])
    &&& forall|k: int, b: NodeId|
        #![trigger feeds(g, order[k], b)]
        0 <= k < order.len() && feeds(g, order[k], b) ==> order.contains(b)
}

/// The numbering of values so far: new value `w` was `from[w]`.
spec fn numbered(map: Seq<Option<ValueId>>, from: Seq<int>) -> bool {
    &&& forall|w: int|
        0 <= w < from.len() ==> 0 <= #[trigger] from[w] < map.len() && map[from[w]] == Some(
            ValueId(w as u32),
        )
    &&& forall|v: int|
        0 <= v < map.len() ==> match #[trigger] map[v] {
            Some(w) => w.0 < from.len() && from[w.0 as int] == v,
            None => true,
        }
}

/// The numbering of slots so far: new slot `x` was `from[x]`.
spec fn numbered_slots(map: Seq<Option<UseId>>, from: Seq<int>) -> bool {
    &&& forall|w: int|
        0 <= w < from.len() ==> 0 <= #[trigger] from[w] < map.len() && map[from[w]] == Some(
            UseId(w as u32),
        )
    &&& forall|v: int|
        0 <= v < map.len() ==> match #[trigger] map[v] {
            Some(w) => w.0 < from.len() && from[w.0 as int] == v,
            None => true,
        }
}

proof fn lemma_numbered_fits(map: Seq<Option<ValueId>>, from: Seq<int>)
    requires
        numbered(map, from),
        from.len() <= 0x1_0000_0000,
    ensures
        from.len() <= map.len(),
{
    assert forall|a: int, b: int| 0 <= a < b < from.len() implies from[a] != from[b] by {
        assert(map[from[a]] == Some(ValueId(a as u32)));
        assert(map[from[b]] == Some(ValueId(b as u32)));
    }
    lemma_distinct_ints(from, map.len());
}

proof fn lemma_numbered_slots_fit(map: Seq<Option<UseId>>, from: Seq<int>)
    requires
        numbered_slots(map, from),
        from.len() <= 0x1_0000_0000,
    ensures
        from.len() <= map.len(),
{
    assert forall|a: int, b: int| 0 <= a < b < from.len() implies from[a] != from[b] by {
        assert(map[from[a]] == Some(UseId(a as u32)));
        assert(map[from[b]] == Some(UseId(b as u32)));
    }
    lemma_distinct_ints(from, map.len());
}

/// Slots of `n` in `h` are as yet missing; its outputs stand for those of `o`.
spec fn outputs_placed(
    g: GraphModel,
    h: GraphModel,
    o: NodeId,
    n: NodeId,
    map: Seq<Option<ValueId>>,
) -> bool {
    &&& h.kind(n) == g.kind(o)
    &&& h.outs(n).len() == g.outs(o).len()
    &&& h.out_kinds(n) == g.out_kinds(o)
    &&& forall|i: int|
        0 <= i < g.outs(o).len() ==> map[(#[trigger] g.outs(o)[i]).0 as int] == Some(h.outs(n)[i])
}

/// Inputs of `n` in `h` stand for those of `o`.
spec fn inputs_placed(
    g: GraphModel,
    h: GraphModel,
    o: NodeId,
    n: NodeId,
    values: Seq<Option<ValueId>>,
    uses: Seq<Option<UseId>>,
) -> bool {
    &&& h.slots(n).len() == g.slots(o).len()
    &&& forall|i: int|
        0 <= i < g.ins(o).len() ==> values[(#[trigger] g.ins(o)[i]).0 as int] == Some(h.ins(n)[i])
    &&& forall|i: int|
        0 <= i < g.slots(o).len() ==> uses[(#[trigger] g.slots(o)[i]).0 as int] == Some(
            h.slots(n)[i],
        )
}

fn none_nodes(len: usize) -> (r: Vec<Option<NodeId>>)
    ensures
        r@.len() == len,
        forall|i: int| 0 <= i < len ==> (#[trigger] r@[i]) is None,
{
    let mut r: Vec<Option<NodeId>> = Vec::new();
    let mut i: usize = 0;
    while i < len
        invariant
            i <= len,
            r@.len() == i,
            forall|k: int| 0 <= k < i ==> (#[trigger] r@[k]) is None,
        decreases len - i,
    {
        r.push(None);
        i += 1;
    }
    r
}

fn none_values(len: usize) -> (r: Vec<Option<ValueId>>)
    ensures
        r@.len() == len,
        forall|i: int| 0 <= i < len ==> (#[trigger] r@[i]) is None,
{
    let mut r: Vec<Option<ValueId>> = Vec::new();
    let mut i: usize = 0;
    while i < len
        invariant
            i <= len,
            r@.len() == i,
            forall|k: int| 0 <= k < i ==> (#[trigger] r@[k]) is None,
        decreases len - i,
    {
        r.push(None);
        i += 1;
    }
    r
}

fn none_uses(len: usize) -> (r: Vec<Option<UseId>>)
    ensures
        r@.len() == len,
        forall|i: int| 0 <= i < len ==> (#[trigger] r@[i]) is None,
{
    let mut r: Vec<Option<UseId>> = Vec::new();
    let mut i: usize = 0;
    while i < len
        invariant
            i <= len,
            r@.len() == i,
            forall|k: int| 0 <= k < i ==> (#[trigger] r@[k]) is None,
        decreases len - i,
    {
        r.push(None);
        i += 1;
    }
    r
}

/// What holds of the copy while nodes and outputs are being copied, `count`
/// nodes of the order having been started.
spec fn copying(
    g: GraphModel,
    h: GraphModel,
    order: Seq<NodeId>,
    count: int,
    nodes: Seq<Option<NodeId>>,
    values: Seq<Option<ValueId>>,
    from: Seq<int>,
) -> bool {
    &&& h.cache.is_empty()
    &&& h.generation == 0
    &&& h.nodes.len() == count
    &&& h.uses.len() == 0
    &&& h.values.len() == from.len()
    &&& nodes.len() == g.nodes.len()
    &&& values.len() == g.values.len()
    &&& forall|k: int| 0 <= k < count ==> (#[trigger] h.nodes[k]).inputs.len() == 0
    &&& forall|k: int|
        0 <= k < count ==> nodes[(#[trigger] order[k]).0 as int] == Some(NodeId(k as u32))
    &&& forall|n: int|
        0 <= n < nodes.len() ==> match #[trigger] nodes[n] {
            Some(m) => m.0 < count && order[m.0 as int].0 == n,
            None => true,
        }
    &&& numbered(values, from)
    &&& forall|v: int|
        0 <= v < values.len() ==> #[trigger] value_placed(g, h, v, values[v], nodes)
}

/// Value `v` of `g` is not copied, or copied as `to`, an output of its node.
spec fn value_placed(
    g: GraphModel,
    h: GraphModel,
    v: int,
    to: Option<ValueId>,
    nodes: Seq<Option<NodeId>>,
) -> bool {
    match to {
        Some(w) => {
            &&& h.has_value(w)
            &&& h.value_kind(w) == g.values[v].kind
            &&& nodes[g.values[v].source.0 as int] == Some(h.producer(w))
        },
        None => true,
    }
}

proof fn lemma_numbered_push(map: Seq<Option<ValueId>>, from: Seq<int>, v: int)
    requires
        numbered(map, from),
        0 <= v < map.len() <= u32::MAX,
        map[v] is None,
        from.len() <= u32::MAX,
    ensures
        numbered(map.update(v, Some(ValueId(from.len() as u32))), from.push(v)),
        from.len() < map.len(),
{
    let map2 = map.update(v, Some(ValueId(from.len() as u32)));
    let from2 = from.push(v);
    assert forall|w: int| 0 <= w < from2.len() implies 0 <= #[trigger] from2[w] < map2.len()
        && map2[from2[w]] == Some(ValueId(w as u32)) by {
        if w < from.len() {
            assert(map[from[w]] == Some(ValueId(w as u32)));
        }
    }
    assert forall|x: int| 0 <= x < map2.len() implies match #[trigger] map2[x] {
        Some(w) => w.0 < from2.len() && from2[w.0 as int] == x,
        None => true,
    } by {
        if x != v {
            assert(map2[x] == map[x]);
        }
    }
    lemma_numbered_fits(map2, from2);
}

proof fn lemma_numbered_slots_push(map: Seq<Option<UseId>>, from: Seq<int>, v: int)
    requires
        numbered_slots(map, from),
        0 <= v < map.len() <= u32::MAX,
        map[v] is None,
        from.len() <= u32::MAX,
    ensures
        numbered_slots(map.update(v, Some(UseId(from.len() as u32))), from.push(v)),
        from.len() < map.len(),
{
    let map2 = map.update(v, Some(UseId(from.len() as u32)));
    let from2 = from.push(v);
    assert forall|w: int| 0 <= w < from2.len() implies 0 <= #[trigger] from2[w] < map2.len()
        && map2[from2[w]] == Some(UseId(w as u32)) by {
        if w < from.len() {
            assert(map[from[w]] == Some(UseId(w as u32)));
        }
    }
    assert forall|x: int| 0 <= x < map2.len() implies match #[trigger] map2[x] {
        Some(w) => w.0 < from2.len() && from2[w.0 as int] == x,
        None => true,
    } by {
        if x != v {
            assert(map2[x] == map[x]);
        }
    }
    lemma_numbered_slots_fit(map2, from2);
}

impl Graph {
    /// Copies the nodes of `order` with their outputs into a fresh graph.
    #[verifier::rlimit(40)]
    fn copy_nodes(&self, order: &Vec<NodeId>) -> (r: (
        Graph,
        Vec<Option<NodeId>>,
        Vec<Option<ValueId>>,
        Ghost<Seq<int>>,
    ))
        requires
            self.wf(),
            closed_order(self@, order@),
        ensures
            r.0.wf(),
            copying(self@, r.0@, order@, order@.len() as int, r.1@, r.2@, r.3@),
            forall|k: int|
                0 <= k < order@.len() ==> outputs_placed(
                    self@,
                    r.0@,
                    #[trigger] order@[k],
                    NodeId(k as u32),
                    r.2@,
                ),
    {
        let ghost g = self@;
        let mut ng = Graph::new();
        let mut nodes = none_nodes(self.node_count());
        let mut values = none_values(self.value_count());
        let ghost mut from: Seq<int> = Seq::empty();
        proof {
            crate::entity_set::lemma_distinct_bounded(order@, g.nodes.len());
        }
        let mut i: usize = 0;
        while i < order.len()
            invariant
                self.wf(),
                g == self@,
                g.valid(),
                closed_order(g, order@),
                i <= order.len() <= g.nodes.len(),
                ng.wf(),
                copying(g, ng@, order@, i as int, nodes@, values@, from),
                forall|k: int|
                    0 <= k < i ==> outputs_placed(
                        g,
                        ng@,
                        #[trigger] order@[k],
                        NodeId(k as u32),
                        values@,
                    ),
            decreases order.len() - i,
        {
            let o = order[i];
            let ghost h0 = ng@;
            let kind = *self.node_kind(o);
            proof {
                lemma_with_node_valid(h0, kind);
                assert(nodes@[o.0 as int] is None) by {
                    if let Some(m) = nodes@[o.0 as int] {
                        assert(order@[m.0 as int] == order@[i as int]);
                    }
                }
            }
            let n = ng.alloc_node(kind);
            let ghost nodes0 = nodes@;
            nodes.set(o.0 as usize, Some(n));
            let outs = self.node_outputs(o);
            proof {
                assert(ng@.out_kinds(n) =~= g.out_kinds(o).take(0));
                assert forall|k: int| 0 <= k < i implies outputs_placed(
                    g,
                    ng@,
                    #[trigger] order@[k],
                    NodeId(k as u32),
                    values@,
                ) by {
                    assert(outputs_placed(g, h0, order@[k], NodeId(k as u32), values@));
                    assert(ng@.out_kinds(NodeId(k as u32)) =~= h0.out_kinds(NodeId(k as u32)));
                }
                assert forall|k: int| 0 <= k < i + 1 implies nodes@[(
                #[trigger] order@[k]).0 as int] == Some(NodeId(k as u32)) by {
                    if k < i {
                        assert(order@[k] != order@[i as int]);
                    }
                }
                assert forall|v: int| 0 <= v < values@.len() implies #[trigger] value_placed(
                    g,
                    ng@,
                    v,
                    values@[v],
                    nodes@,
                ) by {
                    assert(value_placed(g, h0, v, values@[v], nodes0));
                    assert(g.value_ok(v));
                }
                assert forall|v: int|
                    #![trigger values@[v]]
                    0 <= v < values@.len() && values@[v] is Some implies g.values[v].source != o by {
                    assert(value_placed(g, h0, v, values@[v], nodes0));
                }
            }
            let mut j: usize = 0;
            while j < outs.len()
                invariant
                    self.wf(),
                    g == self@,
                    g.valid(),
                    closed_order(g, order@),
                    i < order.len() <= g.nodes.len(),
                    o == order@[i as int],
                    n == NodeId(i as u32),
                    outs@ == g.outs(o),
                    j <= outs.len(),
                    ng.wf(),
                    copying(g, ng@, order@, i + 1, nodes@, values@, from),
                    forall|k: int|
                        0 <= k < i ==> outputs_placed(
                            g,
                            ng@,
                            #[trigger] order@[k],
                            NodeId(k as u32),
                            values@,
                        ),
                    ng@.kind(n) == g.kind(o),
                    ng@.outs(n).len() == j,
                    ng@.out_kinds(n) == g.out_kinds(o).take(j as int),
                    forall|x: int|
                        0 <= x < j ==> values@[(#[trigger] g.outs(o)[x]).0 as int] == Some(
                            ng@.outs(n)[x],
                        ),
                    forall|v: int|
                        #![trigger values@[v]]
                        0 <= v < values@.len() && values@[v] is Some && g.values[v].source == o
                            ==> g.values[v].index < j,
                decreases outs.len() - j,
            {
                let v = outs[j];
                let ghost h = ng@;
                let ghost values0 = values@;
                proof {
                    assert(g.output_ok(o.0 as int, j as int)) by {
                        assert(g.nodes[o.0 as int].outputs[j as int] == v);
                    }
                    lemma_numbered_fits(values@, from);
                    lemma_numbered_push(values@, from, v.0 as int);
                    assert forall|key: Seq<u64>| #[trigger]
                        h.cache.contains_key(key) implies h.cache[key] != n.0 by {
                        assert(h.cache.dom().contains(key));
                    }
                    lemma_with_output_valid(h, n, g.value_kind(v));
                }
                let vk = self.output_kind(v);
                let ghost w = ValueId(h.values.len() as u32);
                ng.append_output(n, vk);
                let new_outs = ng.node_outputs(n);
                let nw = new_outs[new_outs.len() - 1];
                assert(nw == w);
                values.set(v.0 as usize, Some(nw));
                proof {
                    from = from.push(v.0 as int);
                    assert(g.out_kinds(o).take(j + 1) =~= g.out_kinds(o).take(j as int).push(vk));
                    assert forall|k: int| 0 <= k < i implies outputs_placed(
                        g,
                        ng@,
                        #[trigger] order@[k],
                        NodeId(k as u32),
                        values@,
                    ) by {
                        let m = NodeId(k as u32);
                        let ok = order@[k];
                        assert(outputs_placed(g, h, ok, m, values0));
                        assert(ng@.nodes[k] == h.nodes[k]);
                        assert(ok != o);
                        assert(ng@.out_kinds(m) =~= h.out_kinds(m)) by {
                            assert forall|x: int| 0 <= x < h.outs(m).len() implies ng@.out_kinds(
                                m,
                            )[x] == h.out_kinds(m)[x] by {
                                assert(h.output_ok(k, x)) by {
                                    assert(h.nodes[k].outputs[x] == h.outs(m)[x]);
                                }
                            }
                        }
                        assert forall|x: int| 0 <= x < g.outs(ok).len() implies values@[(
                        #[trigger] g.outs(ok)[x]).0 as int] == Some(ng@.outs(m)[x]) by {
                            assert(g.output_ok(ok.0 as int, x)) by {
                                assert(g.nodes[ok.0 as int].outputs[x] == g.outs(ok)[x]);
                            }
                            assert(g.outs(ok)[x] != v);
                        }
                    }
                    assert forall|x: int| 0 <= x < j + 1 implies values@[(
                    #[trigger] g.outs(o)[x]).0 as int] == Some(ng@.outs(n)[x]) by {
                        assert(g.output_ok(o.0 as int, x)) by {
                            assert(g.nodes[o.0 as int].outputs[x] == g.outs(o)[x]);
                        }
                        if x < j {
                            assert(g.outs(o)[x] != v);
                        }
                    }
                    assert forall|x: int| 0 <= x < values@.len() implies #[trigger] value_placed(
                        g,
                        ng@,
                        x,
                        values@[x],
                        nodes@,
                    ) by {
                        assert(value_placed(g, h, x, values0[x], nodes@));
                        if x != v.0 {
                            assert(values@[x] == values0[x]);
                        } else {
                            assert(nodes@[order@[i as int].0 as int] == Some(n));
                        }
                    }
                    assert forall|k: int| 0 <= k < i + 1 implies (
                    #[trigger] ng@.nodes[k]).inputs.len() == 0 by {
                        assert(h.nodes[k].inputs.len() == 0);
                    }
                }
                j += 1;
            }
            proof {
                assert(g.out_kinds(o).take(j as int) =~= g.out_kinds(o));
                assert forall|k: int| 0 <= k < i + 1 implies outputs_placed(
                    g,
                    ng@,
                    #[trigger] order@[k],
                    NodeId(k as u32),
                    values@,
                ) by {}
            }
            i += 1;
        }
        (ng, nodes, values, Ghost(from))
    }

    /// Gives the nodes of a copy the inputs the nodes of `order` have.
    #[verifier::rlimit(40)]
    fn copy_inputs(
        &self,
        order: &Vec<NodeId>,
        ng: &mut Graph,
        values: &Vec<Option<ValueId>>,
    ) -> (uses: Vec<Option<UseId>>)
        requires
            self.wf(),
            closed_order(self@, order@),
            order@.len() <= self@.nodes.len(),
            values@.len() == self@.values.len(),
            old(ng).wf(),
            old(ng)@.nodes.len() == order@.len(),
            old(ng)@.uses.len() == 0,
            old(ng)@.cache.is_empty(),
            forall|k: int|
                0 <= k < order@.len() ==> (#[trigger] old(ng)@.nodes[k]).inputs.len() == 0,
            forall|v: ValueId|
                self@.has_value(v) && order@.contains(#[trigger] self@.producer(v))
                    ==> values@[v.0 as int] is Some && old(ng)@.has_value(
                    values@[v.0 as int]->Some_0,
                ),
        ensures
            final(ng).wf(),
            final(ng)@.nodes.len() == order@.len(),
            final(ng)@.values == old(ng)@.values,
            final(ng)@.cache.is_empty(),
            final(ng)@.generation == old(ng)@.generation,
            forall|k: int|
                0 <= k < order@.len() ==> (#[trigger] final(ng)@.nodes[k]).outputs == old(ng)@.nodes[k].outputs && final(ng)@.nodes[k].kind == old(ng)@.nodes[k].kind,
            uses@.len() == self@.uses.len(),
            forall|k: int|
                0 <= k < order@.len() ==> inputs_placed(
                    self@,
                    final(ng)@,
                    #[trigger] order@[k],
                    NodeId(k as u32),
                    values@,
                    uses@,
                ),
    {
        let ghost g = self@;
        let ghost h0 = ng@;
        let mut uses = none_uses(self.use_count());
        let ghost mut from: Seq<int> = Seq::empty();
        let mut i: usize = 0;
        while i < order.len()
            invariant
                self.wf(),
                g == self@,
                g.valid(),
                closed_order(g, order@),
                i <= order.len() <= g.nodes.len(),
                values@.len() == g.values.len(),
                forall|v: ValueId|
                    g.has_value(v) && order@.contains(#[trigger] g.producer(v))
                        ==> values@[v.0 as int] is Some && h0.has_value(
                        values@[v.0 as int]->Some_0,
                    ),
                ng.wf(),
                ng@.nodes.len() == order@.len(),
                ng@.values == h0.values,
                ng@.cache.is_empty(),
                ng@.generation == h0.generation,
                forall|k: int|
                    0 <= k < order@.len() ==> (#[trigger] ng@.nodes[k]).outputs
                        == h0.nodes[k].outputs && ng@.nodes[k].kind == h0.nodes[k].kind,
                forall|k: int|
                    i <= k < order@.len() ==> (#[trigger] ng@.nodes[k]).inputs.len() == 0,
                uses@.len() == g.uses.len(),
                numbered_slots(uses@, from),
                ng@.uses.len() == from.len(),
                forall|k: int|
                    0 <= k < i ==> inputs_placed(
                        g,
                        ng@,
                        #[trigger] order@[k],
                        NodeId(k as u32),
                        values@,
                        uses@,
                    ),
                forall|u: int|
                    #![trigger uses@[u]]
                    0 <= u < uses@.len() && uses@[u] is Some ==> exists|k: int|
                        0 <= k < i && #[trigger] order@[k] == g.uses[u].node,
            decreases order.len() - i,
        {
            let o = order[i];
            let n = NodeId(i as u32);
            let inputs = self.node_inputs(o).iter();
            let len = inputs.len();
            proof {
                assert(g.slots(o).len() == g.ins(o).len());
                assert forall|u: int|
                    #![trigger uses@[u]]
                    0 <= u < uses@.len() && uses@[u] is Some implies g.uses[u].node != o by {
                    let k = choose|k: int|
                        0 <= k < i && #[trigger] order@[k] == g.uses[u].node;
                    assert(order@[k] != order@[i as int]);
                }
                assert(ng@.nodes[i as int].inputs.len() == 0);
            }
            let mut j: usize = 0;
            while j < len
                invariant
                    self.wf(),
                    g == self@,
                    g.valid(),
                    closed_order(g, order@),
                    i < order.len() <= g.nodes.len(),
                    o == order@[i as int],
                    n == NodeId(i as u32),
                    inputs@ == g.ins(o),
                    len == g.slots(o).len(),
                    len == inputs.len(),
                    j <= len,
                    values@.len() == g.values.len(),
                    forall|v: ValueId|
                        g.has_value(v) && order@.contains(#[trigger] g.producer(v))
                            ==> values@[v.0 as int] is Some && h0.has_value(
                            values@[v.0 as int]->Some_0,
                        ),
                    ng.wf(),
                    ng@.nodes.len() == order@.len(),
                    ng@.values == h0.values,
                    ng@.cache.is_empty(),
                    ng@.generation == h0.generation,
                    forall|k: int|
                        0 <= k < order@.len() ==> (#[trigger] ng@.nodes[k]).outputs
                            == h0.nodes[k].outputs && ng@.nodes[k].kind == h0.nodes[k].kind,
                    forall|k: int|
                        i < k < order@.len() ==> (#[trigger] ng@.nodes[k]).inputs.len() == 0,
                    uses@.len() == g.uses.len(),
                    numbered_slots(uses@, from),
                    ng@.uses.len() == from.len(),
                    forall|k: int|
                        0 <= k < i ==> inputs_placed(
                            g,
                            ng@,
                            #[trigger] order@[k],
                            NodeId(k as u32),
                            values@,
                            uses@,
                        ),
                    ng@.slots(n).len() == j,
                    forall|x: int|
                        0 <= x < j ==> values@[(#[trigger] g.ins(o)[x]).0 as int] == Some(
                            ng@.ins(n)[x],
                        ),
                    forall|x: int|
                        0 <= x < j ==> uses@[(#[trigger] g.slots(o)[x]).0 as int] == Some(
                            ng@.slots(n)[x],
                        ),
                    forall|u: int|
                        #![trigger uses@[u]]
                        0 <= u < uses@.len() && uses@[u] is Some ==> (g.uses[u].node == o
                            && g.uses[u].index < j) || exists|k: int|
                            0 <= k < i && #[trigger] order@[k] == g.uses[u].node,
                decreases len - j,
            {
                let v = inputs[j];
                let slot = match self.node_input_id_at(o, j) {
                    Ok(u) => u,
                    Err(_) => {
                        assert(false);
                        UseId(0)
                    },
                };
                let ghost h = ng@;
                let ghost uses0 = uses@;
                proof {
                    assert(slot == g.slots(o)[j as int]);
                    assert(g.slot_ok(o.0 as int, j as int)) by {
                        assert(g.nodes[o.0 as int].inputs[j as int] == slot);
                    }
                    assert(v == g.uses[slot.0 as int].value);
                    assert(feeds(g, o, g.producer(v))) by {
                        assert(g.producer(g.ins(o)[j as int]) == g.producer(v));
                    }
                    assert(order@.contains(g.producer(v)));
                    assert(uses@[slot.0 as int] is None) by {
                        if uses@[slot.0 as int] is Some {
                            if exists|k: int|
                                0 <= k < i && #[trigger] order@[k] == g.uses[slot.0 as int].node {
                                let k = choose|k: int|
                                    0 <= k < i && #[trigger] order@[k]
                                        == g.uses[slot.0 as int].node;
                                assert(order@[k] != order@[i as int]);
                            }
                        }
                    }
                    lemma_numbered_slots_fit(uses@, from);
                    lemma_numbered_slots_push(uses@, from, slot.0 as int);
                    assert forall|key: Seq<u64>| #[trigger]
                        h.cache.contains_key(key) implies h.cache[key] != n.0 by {
                        assert(h.cache.dom().contains(key));
                    }
                }
                let w = match values[v.0 as usize] {
                    Some(w) => w,
                    None => {
                        assert(false);
                        ValueId(0)
                    },
                };
                proof {
                    lemma_with_input_valid(h, n, w);
                }
                ng.append_input(n, w);
                let fresh = UseId((ng.use_count() - 1) as u32);
                uses.set(slot.0 as usize, Some(fresh));
                proof {
                    from = from.push(slot.0 as int);
                    assert forall|k: int| 0 <= k < i implies inputs_placed(
                        g,
                        ng@,
                        #[trigger] order@[k],
                        NodeId(k as u32),
                        values@,
                        uses@,
                    ) by {
                        let m = NodeId(k as u32);
                        let ok = order@[k];
                        assert(inputs_placed(g, h, ok, m, values@, uses0));
                        assert(ng@.nodes[k] == h.nodes[k]);
                        assert(ok != o);
                        assert(ng@.ins(m) =~= h.ins(m)) by {
                            assert forall|x: int| 0 <= x < h.slots(m).len() implies ng@.ins(m)[x]
                                == h.ins(m)[x] by {
                                assert(h.slot_ok(k, x)) by {
                                    assert(h.nodes[k].inputs[x] == h.slots(m)[x]);
                                }
                            }
                        }
                        assert forall|x: int| 0 <= x < g.slots(ok).len() implies uses@[(
                        #[trigger] g.slots(ok)[x]).0 as int] == Some(ng@.slots(m)[x]) by {
                            assert(g.slot_ok(ok.0 as int, x)) by {
                                assert(g.nodes[ok.0 as int].inputs[x] == g.slots(ok)[x]);
                            }
                            assert(g.slots(ok)[x] != slot);
                        }
                    }
                    assert(ng@.ins(n) == h.ins(n).push(w));
                    assert forall|x: int| 0 <= x < j + 1 implies uses@[(
                    #[trigger] g.slots(o)[x]).0 as int] == Some(ng@.slots(n)[x]) by {
                        assert(g.slot_ok(o.0 as int, x)) by {
                            assert(g.nodes[o.0 as int].inputs[x] == g.slots(o)[x]);
                        }
                        if x < j {
                            assert(g.slots(o)[x] != slot);
                        }
                    }
                    assert forall|u: int|
                        #![trigger uses@[u]]
                        0 <= u < uses@.len() && uses@[u] is Some implies (g.uses[u].node == o
                        && g.uses[u].index < j + 1) || exists|k: int|
                        0 <= k < i && #[trigger] order@[k] == g.uses[u].node by {
                        if u != slot.0 {
                            assert(uses@[u] == uses0[u]);
                        }
                    }
                }
                j += 1;
            }
            proof {
                assert forall|k: int| 0 <= k < i + 1 implies inputs_placed(
                    g,
                    ng@,
                    #[trigger] order@[k],
                    NodeId(k as u32),
                    values@,
                    uses@,
                ) by {}
                assert forall|u: int|
                    #![trigger uses@[u]]
                    0 <= u < uses@.len() && uses@[u] is Some implies exists|k: int|
                    0 <= k < i + 1 && #[trigger] order@[k] == g.uses[u].node by {
                    if g.uses[u].node == o {
                        assert(order@[i as int] == o);
                    } else {
                        let k = choose|k: int|
                            0 <= k < i && #[trigger] order@[k] == g.uses[u].node;
                        assert(order@[k] == g.uses[u].node);
                    }
                }
            }
            i += 1;
        }
        uses
    }

    /// Cuts the graph down to the nodes of `order`, numbered by their place
    /// there. Leaves the cache empty.
    pub(crate) fn retain(&mut self, order: &Vec<NodeId>) -> (r: NodeIdRemap)
        requires
            old(self).wf(),
            closed_order(old(self)@, order@),
        ensures
            final(self).wf(),
            retained(old(self)@, final(self)@, order@, &r),
            r.old_node_count() == old(self)@.nodes.len(),
            r.fits(),
            final(self)@.cache.is_empty(),
            final(self)@.generation == wrapping_next(old(self)@.generation),
    {
        let ghost g = self@;
        proof {
            crate::entity_set::lemma_distinct_bounded(order@, g.nodes.len());
        }
        let (mut ng, nodes, values, from) = self.copy_nodes(order);
        let ghost h1 = ng@;
        proof {
            assert forall|v: ValueId|
                g.has_value(v) && order@.contains(#[trigger] g.producer(v)) implies values@[v.0 as int]
                is Some && h1.has_value(values@[v.0 as int]->Some_0) by {
                let k = order@.index_of(g.producer(v));
                assert(order@[k] == g.producer(v));
                assert(outputs_placed(g, h1, order@[k], NodeId(k as u32), values@));
                assert(g.value_ok(v.0 as int));
                let i = g.values[v.0 as int].index as int;
                assert(g.outs(g.producer(v))[i] == v);
                assert(value_placed(g, h1, v.0 as int, values@[v.0 as int], nodes@));
            }
        }
        let uses = self.copy_inputs(order, &mut ng, &values);
        ng.set_generation(self.generation);
        *self = ng;
        let r = NodeIdRemap { nodes, values, uses };
        proof {
            let h = self@;
            assert forall|k: int| 0 <= k < order@.len() implies kept_node(
                g,
                h,
                #[trigger] order@[k],
                NodeId(k as u32),
                &r,
            ) by {
                let m = NodeId(k as u32);
                let o = order@[k];
                assert(outputs_placed(g, h1, o, m, values@));
                assert(inputs_placed(g, h, o, m, values@, uses@));
                assert(h.nodes[k].outputs == h1.nodes[k].outputs);
                assert(h.out_kinds(m) =~= h1.out_kinds(m));
                assert forall|i: int| 0 <= i < g.ins(o).len() implies r.value(
                    #[trigger] g.ins(o)[i],
                ) == Some(h.ins(m)[i]) by {
                    assert(g.slot_ok(o.0 as int, i)) by {
                        assert(g.nodes[o.0 as int].inputs[i] == g.slots(o)[i]);
                    }
                }
                assert forall|i: int| 0 <= i < g.slots(o).len() implies r.slot(
                    #[trigger] g.slots(o)[i],
                ) == Some(h.slots(m)[i]) by {
                    assert(g.slot_ok(o.0 as int, i)) by {
                        assert(g.nodes[o.0 as int].inputs[i] == g.slots(o)[i]);
                    }
                }
                assert forall|i: int| 0 <= i < g.outs(o).len() implies r.value(
                    #[trigger] g.outs(o)[i],
                ) == Some(h.outs(m)[i]) by {
                    assert(g.output_ok(o.0 as int, i)) by {
                        assert(g.nodes[o.0 as int].outputs[i] == g.outs(o)[i]);
                    }
                }
            }
            assert forall|n: NodeId| (#[trigger] r.node(n)) is Some implies order@.contains(n) by {
                let m = r.node(n)->Some_0;
                assert(nodes@[n.0 as int] == Some(m));
                assert(order@[m.0 as int] == n);
            }
            assert forall|v: ValueId| (#[trigger] r.value(v)) is Some implies g.has_value(v)
                && order@.contains(g.producer(v)) && ({
                let w = r.value(v)->Some_0;
                &&& h.has_value(w)
                &&& h.value_kind(w) == g.value_kind(v)
                &&& Some(h.producer(w)) == r.node(g.producer(v))
            }) by {
                assert(value_placed(g, h1, v.0 as int, values@[v.0 as int], nodes@));
                assert(g.value_ok(v.0 as int));
                let w = r.value(v)->Some_0;
                let m = h1.producer(w);
                assert(nodes@[g.producer(v).0 as int] == Some(m));
                assert(order@[m.0 as int] == g.producer(v));
            }
            assert forall|v: ValueId|
                g.has_value(v) && order@.contains(g.producer(v)) implies (
            #[trigger] r.value(v)) is Some by {
                assert(order@.contains(g.producer(v)));
            }
            assert forall|v: ValueId, w: ValueId|
                (#[trigger] r.value(v)) is Some && r.value(v) == #[trigger] r.value(w) implies v
                == w by {
                let x = r.value(v)->Some_0;
                assert(values@[v.0 as int] == Some(x));
                assert(values@[w.0 as int] == Some(x));
            }
        }
        r
    }

    /// Bumps the generation past `previous`.
    fn set_generation(&mut self, previous: u64)
        requires
            old(self).wf(),
        ensures
            final(self).wf(),
            final(self)@ == (GraphModel {
                generation: wrapping_next(previous),
                ..old(self)@
            }),
    {
        let ghost g = self@;
        self.generation = previous.wrapping_add(1);
        proof {
            reveal(Graph::chained);
            assert(self@.values =~= g.values);
            assert(self@.uses =~= g.uses);
            let h = GraphModel { generation: wrapping_next(previous), ..g };
            assert(self@ =~= h);
            lemma_generation_valid(g, wrapping_next(previous));
        }
    }

    /// Cuts the graph down to the nodes reachable from `entry`, and rebuilds
    /// the cache over them. Ids are numbered anew; the result says where each
    /// went.
    pub fn retain_reachable(&mut self, entry: NodeId) -> (r: NodeIdRemap)
        requires
            old(self).wf(),
            old(self)@.has_node(entry),
        ensures
            final(self).wf(),
            exists|order: Seq<NodeId>, h: GraphModel|
                {
                    &&& #[trigger] retained(old(self)@, h, order, &r)
                    &&& final(self)@ == h.recached()
                    &&& order == walk_order(old(self)@, entry)
                },
            r.node(entry) == Some(NodeId(0)),
            forall|n: NodeId|
                (#[trigger] r.node(n)) is Some <==> reachable(old(self)@, entry, n),
            final(self)@.generation == wrapping_next(old(self)@.generation),
    {
        let ghost g = self@;
        let order = self.walk_from(entry);
        proof {
            lemma_walk_closed(g, entry, order@);
        }
        let r = self.retain(&order);
        let ghost h = self@;
        self.rebuild_cache();
        proof {
            assert(retained(g, h, order@, &r));
            assert forall|n: NodeId| (#[trigger] r.node(n)) is Some <==> reachable(
                g,
                entry,
                n,
            ) by {
                if reachable(g, entry, n) {
                    assert(order@.contains(n));
                    let k = order@.index_of(n);
                    assert(r.node(order@[k]) == Some(NodeId(k as u32)));
                }
                if r.node(n) is Some {
                    assert(order@.contains(n));
                }
            }
            assert(r.node(order@[0]) == Some(NodeId(0)));
        }
        r
    }
}

/// A compaction sends no two ids to one.
pub proof fn lemma_retained_injective(
    g: GraphModel,
    h: GraphModel,
    order: Seq<NodeId>,
    remap: &NodeIdRemap,
)
    requires
        retained(g, h, order, remap),
        order.len() <= u32::MAX,
    ensures
        remap.injective(),
{
    assert forall|n: NodeId, m: NodeId|
        (#[trigger] remap.node(n)) is Some && remap.node(n) == #[trigger] remap.node(m) implies n
        == m by {
        let a = order.index_of(n);
        let b = order.index_of(m);
        assert(order.contains(n) && order.contains(m));
        assert(remap.node(order[a]) == Some(NodeId(a as u32)));
        assert(remap.node(order[b]) == Some(NodeId(b as u32)));
    }
}

/// The counter after `x`.
pub open spec fn wrapping_next(x: u64) -> u64 {
    if x == u64::MAX {
        0
    } else {
        (x + 1) as u64
    }
}

proof fn lemma_generation_valid(g: GraphModel, generation: u64)
    requires
        g.valid(),
    ensures
        (GraphModel { generation, ..g }).valid(),
{
    let h = GraphModel { generation, ..g };
    assert forall|key: Seq<u64>| #[trigger] h.cache.contains_key(key) implies h.entry_ok(key) by {
        assert(g.entry_ok(key));
        let m = NodeId(g.cache[key]);
        assert(h.ins(m) =~= g.ins(m));
        assert(h.out_kinds(m) =~= g.out_kinds(m));
    }
    assert forall|w: int| 0 <= w < h.values.len() implies #[trigger] h.value_ok(w) by {
        assert(g.value_ok(w));
    }
    assert forall|m: int, i: int|
        #![trigger h.nodes[m].inputs[i]]
        0 <= m < h.nodes.len() && 0 <= i < h.nodes[m].inputs.len() implies h.slot_ok(m, i) by {
        assert(g.slot_ok(m, i)) by {
            assert(g.nodes[m].inputs[i] == h.nodes[m].inputs[i]);
        }
    }
    assert forall|m: int, i: int|
        #![trigger h.nodes[m].outputs[i]]
        0 <= m < h.nodes.len() && 0 <= i < h.nodes[m].outputs.len() implies h.output_ok(m, i) by {
        assert(g.output_ok(m, i)) by {
            assert(g.nodes[m].outputs[i] == h.nodes[m].outputs[i]);
        }
    }
    assert forall|v: int, i: int|
        #![trigger h.lists[v][i]]
        0 <= v < h.lists.len() && 0 <= i < h.lists[v].len() implies h.reader_ok(v, i) by {
        assert(g.reader_ok(v, i));
    }
}

/// The nodes of a walk can be kept on their own.
pub proof fn lemma_walk_closed(g: GraphModel, entry: NodeId, order: Seq<NodeId>)
    requires
        order.no_duplicates(),
        forall|k: int| 0 <= k < order.len() ==> g.has_node(#[trigger] order[k]),
        forall|n: NodeId| #[trigger] order.contains(n) <==> reachable(g, entry, n),
    ensures
        closed_order(g, order),
{
    assert forall|k: int, b: NodeId|
        #![trigger feeds(g, order[k], b)]
        0 <= k < order.len() && feeds(g, order[k], b) implies order.contains(b) by {
        assert(order.contains(order[k]));
        assert(steps_to(g, order[k], b));
        lemma_reachable_step(g, entry, order[k], b);
    }
}

} // verus!
