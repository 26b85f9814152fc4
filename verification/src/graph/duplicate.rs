//! A copy of a graph.

use super::Graph;
use crate::arena::{NodeArena, NodeData, UseArena, ValueArena};
use crate::node::{NodeId, UseId, ValueId};
use vstd::prelude::*;

verus! {

fn copy_nodes(arena: &NodeArena) -> (r: NodeArena)
    requires
        arena@.len() <= u32::MAX,
    ensures
        r@ == arena@,
{
    let mut r = NodeArena::new();
    let count = arena.len();
    let mut i: usize = 0;
    while i < count
        invariant
            i <= count == arena@.len(),
            count <= u32::MAX,
            r@ == arena@.take(i as int),
        decreases count - i,
    {
        let data = arena.at(NodeId(i as u32));
        let mut inputs: Vec<UseId> = Vec::new();
        let mut j: usize = 0;
        while j < data.inputs.len()
            invariant
                j <= data.inputs.len(),
                inputs@ == data.inputs@.take(j as int),
            decreases data.inputs.len() - j,
        {
            inputs.push(data.inputs[j]);
            j += 1;
            assert(inputs@ =~= data.inputs@.take(j as int));
        }
        assert(inputs@ =~= data.inputs@);
        let mut outputs: Vec<ValueId> = Vec::new();
        let mut k: usize = 0;
        while k < data.outputs.len()
            invariant
                k <= data.outputs.len(),
                outputs@ == data.outputs@.take(k as int),
            decreases data.outputs.len() - k,
        {
            outputs.push(data.outputs[k]);
            k += 1;
            assert(outputs@ =~= data.outputs@.take(k as int));
        }
        assert(outputs@ =~= data.outputs@);
        let copy = NodeData { kind: data.kind, inputs, outputs };
        assert(copy@ == arena@[i as int]);
        r.push(copy);
        i += 1;
        assert(r@ =~= arena@.take(i as int));
    }
    assert(r@ =~= arena@);
    r
}

fn copy_values(arena: &ValueArena) -> (r: ValueArena)
    requires
        arena@.len() <= u32::MAX,
    ensures
        r@ == arena@,
{
    let mut r = ValueArena::new();
    let count = arena.len();
    let mut i: usize = 0;
    while i < count
        invariant
            i <= count == arena@.len(),
            count <= u32::MAX,
            r@ == arena@.take(i as int),
        decreases count - i,
    {
        r.push(*arena.at(ValueId(i as u32)));
        i += 1;
        assert(r@ =~= arena@.take(i as int));
    }
    assert(r@ =~= arena@);
    r
}

fn copy_uses(arena: &UseArena) -> (r: UseArena)
    requires
        arena@.len() <= u32::MAX,
    ensures
        r@ == arena@,
{
    let mut r = UseArena::new();
    let count = arena.len();
    let mut i: usize = 0;
    while i < count
        invariant
            i <= count == arena@.len(),
            count <= u32::MAX,
            r@ == arena@.take(i as int),
        decreases count - i,
    {
        r.push(*arena.at(UseId(i as u32)));
        i += 1;
        assert(r@ =~= arena@.take(i as int));
    }
    assert(r@ =~= arena@);
    r
}

impl Graph {
    /// An independent copy: the same nodes, values and uses under the same
    /// ids, with the same cache.
    pub fn duplicate(&self) -> (r: Graph)
        requires
            self.wf(),
        ensures
            r.wf(),
            r@ == self@,
    {
        reveal(Graph::chained);
        let r = Graph {
            nodes: copy_nodes(&self.nodes),
            values: copy_values(&self.values),
            uses: copy_uses(&self.uses),
            node_to_id: self.node_to_id.duplicate(),
            generation: self.generation,
            lists: Ghost(self.lists@),
        };
        assert(r@ == self@);
        r
    }
}

} // verus!
