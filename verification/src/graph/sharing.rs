//! Which nodes are made once, and which are made anew each time, by name.

use super::laws::{
    law_create_keeps_validity, law_shared_structure_is_made_once, law_unshared_node_is_fresh,
};
use super::model::GraphModel;
use crate::node::{NodeId, NodeKind, ValueId, ValueKind};
use vstd::prelude::*;

verus! {

/// A node that neither steers control, writes memory, allocates nor merges
/// paths is made once: creating the same kind with the same inputs and outputs
/// again returns the node there is, and adds neither a node, nor a value, nor a
/// reader of any input.
pub proof fn law_computations_are_made_once(
    g: GraphModel,
    kind: NodeKind,
    inputs: Seq<ValueId>,
    outputs: Seq<ValueKind>,
)
    requires
        g.valid(),
        g.has_room(1, inputs.len() as int, outputs.len() as int),
        forall|i: int| 0 <= i < inputs.len() ==> g.has_value(#[trigger] inputs[i]),
        kind is InitialMemory || kind is InitialVar || kind is FunctionArg || kind is Load || kind
            is MemProject || kind is MemUnion || kind is IntConst || kind is FloatConst || kind
            is BoolConst || kind is IntUnaryOp || kind is IntBinaryOp || kind is IntCmpOp || kind
            is BoolUnaryOp || kind is BoolBinaryOp || kind is FloatUnaryOp || kind is FloatBinaryOp
            || kind is FloatCmpOp || kind is Popcount || kind is Lzcount || kind is Truncate || kind
            is Extend || kind is CastToBool || kind is CastToInt || kind is CastToFloat || kind
            is IntToFloat || kind is FloatToInt || kind is FloatToFloat || kind is IntBitsToFloat
            || kind is FloatBitsToInt || kind is SegmentOp || kind is CPoolRef,
    ensures
        ({
            let h = g.created(kind, inputs, outputs);
            let n = g.created_id(kind, inputs, outputs);
            &&& h.kind(n) == kind && h.ins(n) == inputs && h.out_kinds(n) == outputs
            &&& h.created_id(kind, inputs, outputs) == n
            &&& h.created(kind, inputs, outputs).nodes == h.nodes
            &&& h.created(kind, inputs, outputs).values == h.values
            &&& h.created(kind, inputs, outputs).uses == h.uses
            &&& h.created(kind, inputs, outputs).lists == h.lists
        }),
{
    law_create_keeps_validity(g, kind, inputs, outputs);
    law_shared_structure_is_made_once(g, kind, inputs, outputs);
}

/// A node that merges paths, transfers control, writes memory or allocates is
/// always a new one, however often the same is asked for.
pub proof fn law_effects_are_made_anew(
    g: GraphModel,
    kind: NodeKind,
    inputs: Seq<ValueId>,
    outputs: Seq<ValueKind>,
)
    requires
        g.valid(),
        g.has_room(2, 2 * inputs.len() as int, 2 * outputs.len() as int),
        forall|i: int| 0 <= i < inputs.len() ==> g.has_value(#[trigger] inputs[i]),
        kind is Region || kind is ControlState || kind is Phi || kind is MemPhi || kind is Switch
            || kind is Call || kind is CallOther || kind is Return || kind is IndirectBranch || kind
            is Unreachable || kind is Store || kind is StackStore || kind is StackStorePhi || kind
            is New,
    ensures
        ({
            let h = g.created(kind, inputs, outputs);
            let n = g.created_id(kind, inputs, outputs);
            &&& n == NodeId(g.nodes.len() as u32)
            &&& h.nodes.len() == g.nodes.len() + 1
            &&& h.kind(n) == kind && h.ins(n) == inputs && h.out_kinds(n) == outputs
            &&& h.created_id(kind, inputs, outputs) == NodeId((g.nodes.len() + 1) as u32)
            &&& h.created(kind, inputs, outputs).nodes.len() == g.nodes.len() + 2
        }),
{
    law_create_keeps_validity(g, kind, inputs, outputs);
    law_unshared_node_is_fresh(g, kind, inputs, outputs);
    super::laws::lemma_created_sizes(g, kind, inputs, outputs);
    let h = g.created(kind, inputs, outputs);
    assert forall|i: int| 0 <= i < inputs.len() implies h.has_value(#[trigger] inputs[i]) by {}
    super::laws::lemma_created_sizes(h, kind, inputs, outputs);
}

} // verus!
