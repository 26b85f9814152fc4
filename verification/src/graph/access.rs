//! Reading the graph.

use super::Graph;
use crate::entity_set::NodeIdSet;
use crate::error::IrError;
use crate::iterators::Inputs;
use crate::node::{NodeId, NodeKind, UseId, ValueId, ValueKind};
use vstd::prelude::*;

verus! {

/// The elements of a slice as an array, if there are exactly `N`.
fn exact<const N: usize>(s: &[ValueId]) -> (r: Option<[ValueId; N]>)
    ensures
        r is Some <==> s@.len() == N,
        r matches Some(a) ==> a@ == s@,
{
    if s.len() != N {
        return None;
    }
    let mut result: [ValueId; N] = [ValueId(0);N];
    let mut i: usize = 0;
    while i < N
        invariant
            i <= N,
            s@.len() == N,
            result@.len() == N,
            forall|j: int| 0 <= j < i ==> result@[j] == s@[j],
        decreases N - i,
    {
        result[i] = s[i];
        i += 1;
    }
    assert(result@ =~= s@);
    Some(result)
}

impl Graph {
    /// The number of nodes.
    pub fn node_count(&self) -> (r: usize)
        ensures
            r == self@.nodes.len(),
    {
        self.nodes.len()
    }

    /// The number of values.
    pub fn value_count(&self) -> (r: usize)
        ensures
            r == self@.values.len(),
    {
        self.values.len()
    }

    /// The number of input slots ever made.
    pub fn use_count(&self) -> (r: usize)
        ensures
            r == self@.uses.len(),
    {
        self.uses.len()
    }

    /// How often the ids of this graph have been renumbered, modulo `2^64`.
    pub fn generation(&self) -> (r: u64)
        ensures
            r == self@.generation,
    {
        self.generation
    }

    /// Every node, in id order.
    pub fn all_node_ids(&self) -> (r: Vec<NodeId>)
        requires
            self.wf(),
        ensures
            r@.len() == self@.nodes.len(),
            forall|i: int| 0 <= i < r@.len() ==> (#[trigger] r@[i]).0 == i,
    {
        let len = self.nodes.len();
        let mut r: Vec<NodeId> = Vec::new();
        let mut i: usize = 0;
        while i < len
            invariant
                i <= len <= u32::MAX,
                r@.len() == i,
                forall|k: int| 0 <= k < r@.len() ==> (#[trigger] r@[k]).0 == k,
            decreases len - i,
        {
            r.push(NodeId(i as u32));
            i += 1;
        }
        r
    }

    /// The kind of a node.
    pub fn node_kind(&self, node_id: NodeId) -> (r: &NodeKind)
        requires
            self@.has_node(node_id),
        ensures
            *r == self@.kind(node_id),
    {
        &self.nodes.at(node_id).kind
    }

    /// The kind of a value.
    pub fn output_kind(&self, output_id: ValueId) -> (r: ValueKind)
        requires
            self@.has_value(output_id),
        ensures
            r == self@.value_kind(output_id),
    {
        self.values.at(output_id).kind
    }

    /// The node that defines a value, and the value's place among the outputs.
    pub fn output_definition(&self, output_id: ValueId) -> (r: (NodeId, u32))
        requires
            self@.has_value(output_id),
        ensures
            r.0 == self@.producer(output_id),
            r.1 == self@.values[output_id.0 as int].index,
            self.wf() ==> self@.has_node(r.0) && r.1 < self@.outs(r.0).len() && self@.outs(
                r.0,
            )[r.1 as int] == output_id,
    {
        proof {
            if self.wf() {
                assert(self@.value_ok(output_id.0 as int));
            }
        }
        let data = self.values.at(output_id);
        (data.source, data.index)
    }

    /// The values a node defines, in order.
    pub fn node_outputs(&self, node_id: NodeId) -> (r: &[ValueId])
        requires
            self@.has_node(node_id),
        ensures
            r@ == self@.outs(node_id),
            self.wf() ==> forall|i: int| 0 <= i < r@.len() ==> self@.has_value(#[trigger] r@[i]),
    {
        proof {
            if self.wf() {
                assert forall|i: int| 0 <= i < self@.outs(node_id).len() implies self@.has_value(
                    #[trigger] self@.outs(node_id)[i],
                ) by {
                    assert(self@.output_ok(node_id.0 as int, i)) by {
                        assert(self@.nodes[node_id.0 as int].outputs[i] == self@.outs(node_id)[i]);
                    }
                }
            }
        }
        self.nodes.at(node_id).outputs.as_slice()
    }

    /// The outputs of a node that has exactly `N`.
    pub fn node_outputs_exact<const N: usize>(&self, node_id: NodeId) -> (r: Result<
        [ValueId; N],
        IrError,
    >)
        requires
            self@.has_node(node_id),
        ensures
            r is Ok <==> self@.outs(node_id).len() == N,
            r matches Ok(a) ==> a@ == self@.outs(node_id),
            r matches Err(e) ==> e == (IrError::OutputCount {
                node: node_id,
                expected: N,
                actual: self@.outs(node_id).len() as usize,
            }),
    {
        let outputs = self.node_outputs(node_id);
        match exact::<N>(outputs) {
            Some(a) => Ok(a),
            None => Err(
                IrError::OutputCount { node: node_id, expected: N, actual: outputs.len() },
            ),
        }
    }

    /// The values a node reads.
    pub fn node_inputs<'a>(&'a self, node_id: NodeId) -> (r: Inputs<'a>)
        requires
            self.wf(),
            self@.has_node(node_id),
        ensures
            r.wf(),
            *r.graph == *self,
            r@ == self@.ins(node_id),
    {
        let use_list = self.nodes.at(node_id).inputs.as_slice();
        proof {
            assert forall|i: int| 0 <= i < use_list@.len() implies self@.has_use(
                #[trigger] use_list@[i],
            ) by {
                assert(self@.slot_ok(node_id.0 as int, i)) by {
                    assert(self@.nodes[node_id.0 as int].inputs[i] == use_list@[i]);
                }
            }
        }
        let r = Inputs { graph: self, use_list };
        assert(r@ =~= self@.ins(node_id));
        r
    }

    /// The input values of a node that has exactly `N`.
    pub fn node_inputs_exact<const N: usize>(&self, node_id: NodeId) -> (r: Result<
        [ValueId; N],
        IrError,
    >)
        requires
            self.wf(),
            self@.has_node(node_id),
        ensures
            r is Ok <==> self@.ins(node_id).len() == N,
            r matches Ok(a) ==> a@ == self@.ins(node_id),
            r matches Err(e) ==> e == (IrError::InputCount {
                node: node_id,
                expected: N,
                actual: self@.ins(node_id).len() as usize,
            }),
    {
        let inputs = self.input_values(node_id);
        match exact::<N>(&inputs) {
            Some(a) => Ok(a),
            None => Err(IrError::InputCount { node: node_id, expected: N, actual: inputs.len() }),
        }
    }

    /// The node that defines a value.
    pub fn get_node_from_output(&self, output_id: ValueId) -> (r: NodeId)
        requires
            self@.has_value(output_id),
        ensures
            r == self@.producer(output_id),
            self.wf() ==> self@.has_node(r),
    {
        proof {
            if self.wf() {
                assert(self@.value_ok(output_id.0 as int));
            }
        }
        self.values.at(output_id).source
    }

    /// The id the next fresh node gets.
    pub fn next_node_id(&self) -> (r: NodeId)
        requires
            self@.has_room(1, 0, 0),
        ensures
            r.0 == self@.nodes.len(),
    {
        NodeId(self.nodes.len() as u32)
    }

    /// The one memory output of a node.
    pub fn memory_output_of(&self, node_id: NodeId) -> (r: Result<ValueId, IrError>)
        requires
            self.wf(),
            self@.has_node(node_id),
        ensures
            ({
                let kinds = self@.out_kinds(node_id);
                match r {
                    Ok(v) => exists|i: int|
                        {
                            &&& 0 <= i < kinds.len()
                            &&& kinds[i] == ValueKind::Memory
                            &&& v == #[trigger] self@.outs(node_id)[i]
                            &&& forall|j: int|
                                0 <= j < kinds.len() && j != i ==> #[trigger] kinds[j]
                                    != ValueKind::Memory
                        },
                    Err(e) => {
                        ||| e == IrError::NoMemoryOutput { node: node_id } && forall|j: int|
                            0 <= j < kinds.len() ==> #[trigger] kinds[j] != ValueKind::Memory
                        ||| e == IrError::SeveralMemoryOutputs { node: node_id } && exists|
                            i: int,
                            j: int,
                        |
                            0 <= i < j < kinds.len() && #[trigger] kinds[i] == ValueKind::Memory
                                && #[trigger] kinds[j] == ValueKind::Memory
                    },
                }
            }),
    {
        let outputs = self.node_outputs(node_id);
        let ghost kinds = self@.out_kinds(node_id);
        let mut found: Option<ValueId> = None;
        let ghost mut at: int = 0;
        let mut i: usize = 0;
        while i < outputs.len()
            invariant
                self.wf(),
                self@.has_node(node_id),
                outputs@ == self@.outs(node_id),
                forall|k: int| 0 <= k < outputs@.len() ==> self@.has_value(#[trigger] outputs@[k]),
                kinds == self@.out_kinds(node_id),
                i <= outputs.len(),
                found is None ==> forall|j: int|
                    0 <= j < i ==> #[trigger] kinds[j] != ValueKind::Memory,
                found matches Some(v) ==> 0 <= at < i && kinds[at] == ValueKind::Memory && v
                    == outputs@[at] && forall|j: int|
                    0 <= j < i && j != at ==> #[trigger] kinds[j] != ValueKind::Memory,
            decreases outputs.len() - i,
        {
            let out = outputs[i];
            assert(kinds[i as int] == self@.value_kind(out));
            if self.output_kind(out) == ValueKind::Memory {
                if found.is_some() {
                    assert(kinds[at] == ValueKind::Memory && kinds[i as int] == ValueKind::Memory);
                    return Err(IrError::SeveralMemoryOutputs { node: node_id });
                }
                found = Some(out);
                proof {
                    at = i as int;
                }
            }
            i += 1;
        }
        match found {
            Some(v) => {
                assert(v == self@.outs(node_id)[at]);
                Ok(v)
            },
            None => Err(IrError::NoMemoryOutput { node: node_id }),
        }
    }

    /// The kind of the node that defines a value.
    pub fn kind_of_output(&self, output_id: ValueId) -> (r: &NodeKind)
        requires
            self.wf(),
            self@.has_value(output_id),
        ensures
            *r == self@.kind(self@.producer(output_id)),
    {
        let node = self.get_node_from_output(output_id);
        self.node_kind(node)
    }

    /// The value the `idx`-th input of a node reads.
    pub fn nth_input(&self, node: NodeId, idx: usize) -> (r: Option<ValueId>)
        requires
            self.wf(),
            self@.has_node(node),
        ensures
            r == (if idx < self@.ins(node).len() {
                Some(self@.ins(node)[idx as int])
            } else {
                None
            }),
            r matches Some(v) ==> self@.has_value(v),
    {
        let slots = &self.nodes.at(node).inputs;
        if idx < slots.len() {
            assert(self@.slot_ok(node.0 as int, idx as int)) by {
                assert(self@.nodes[node.0 as int].inputs[idx as int] == slots@[idx as int]);
            }
            Some(self.uses.at(slots[idx]).value)
        } else {
            None
        }
    }

    /// The `idx`-th input slot of a node.
    pub fn node_input_id_at(&self, node: NodeId, idx: usize) -> (r: Result<UseId, IrError>)
        requires
            self.wf(),
            self@.has_node(node),
        ensures
            r == (if idx < self@.slots(node).len() {
                Ok::<UseId, IrError>(self@.slots(node)[idx as int])
            } else {
                Err(
                    IrError::InputOutOfBounds {
                        node,
                        index: idx,
                        len: self@.slots(node).len() as usize,
                    },
                )
            }),
            r matches Ok(u) ==> self@.has_use(u) && self@.attached(u),
    {
        let slots = &self.nodes.at(node).inputs;
        if idx < slots.len() {
            assert(self@.slot_ok(node.0 as int, idx as int)) by {
                assert(self@.nodes[node.0 as int].inputs[idx as int] == slots@[idx as int]);
            }
            Ok(slots[idx])
        } else {
            Err(IrError::InputOutOfBounds { node, index: idx, len: slots.len() })
        }
    }

    /// The value an input slot reads.
    pub fn input_output_id(&self, input: UseId) -> (r: ValueId)
        requires
            self@.has_use(input),
        ensures
            r == self@.uses[input.0 as int].value,
            self.wf() ==> self@.has_value(r),
    {
        self.uses.at(input).value
    }

    /// The node an input slot belongs to.
    pub fn node_of_use(&self, input: UseId) -> (r: NodeId)
        requires
            self@.has_use(input),
        ensures
            r == self@.uses[input.0 as int].node,
            self.wf() ==> self@.has_node(r),
    {
        self.uses.at(input).node
    }

    /// The members of `reachable` that are nodes, in id order, with their
    /// kinds.
    pub fn reachable_kind_iter(&self, reachable: &NodeIdSet) -> (r: Vec<(NodeId, NodeKind)>)
        requires
            self.wf(),
        ensures
            forall|i: int|
                0 <= i < r@.len() ==> self@.has_node((#[trigger] r@[i]).0) && reachable@.contains(
                    r@[i].0,
                ) && r@[i].1 == self@.kind(r@[i].0),
            forall|n: NodeId|
                self@.has_node(n) && #[trigger] reachable@.contains(n) ==> r@.contains(
                    (n, self@.kind(n)),
                ),
            forall|i: int, j: int| 0 <= i < j < r@.len() ==> r@[i].0.0 < r@[j].0.0,
    {
        let len = self.nodes.len();
        let mut r: Vec<(NodeId, NodeKind)> = Vec::new();
        let mut i: usize = 0;
        while i < len
            invariant
                self.wf(),
                i <= len == self@.nodes.len(),
                self@.nodes.len() <= u32::MAX,
                forall|k: int|
                    0 <= k < r@.len() ==> (#[trigger] r@[k]).0.0 < i && reachable@.contains(r@[k].0)
                        && r@[k].1 == self@.kind(r@[k].0),
                forall|n: NodeId|
                    n.0 < i && #[trigger] reachable@.contains(n) ==> r@.contains(
                        (n, self@.kind(n)),
                    ),
                forall|k: int, j: int| 0 <= k < j < r@.len() ==> r@[k].0.0 < r@[j].0.0,
            decreases len - i,
        {
            let n = NodeId(i as u32);
            if reachable.contains(n) {
                let ghost before = r@;
                let kind = *self.node_kind(n);
                r.push((n, kind));
                proof {
                    assert(r@[before.len() as int] == (n, self@.kind(n)));
                    assert forall|m: NodeId|
                        m.0 < i + 1 && #[trigger] reachable@.contains(m) implies r@.contains(
                        (m, self@.kind(m)),
                    ) by {
                        if m.0 < i {
                            let k = before.index_of((m, self@.kind(m)));
                            assert(r@[k] == (m, self@.kind(m)));
                        } else {
                            assert(m == n);
                        }
                    }
                }
            }
            i += 1;
        }
        r
    }
}

} // verus!
