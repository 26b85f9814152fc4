//! Which nodes are shared by structure, and how one is recognised.

use super::Graph;
use crate::cache::{fx_finish, fx_words, hash_borrowed_key, hasher_new, node_key};
use crate::node::{NodeId, NodeKind, ValueId, ValueKind};
use vstd::prelude::*;

verus! {

/// The policy by which nodes are shared: those of a shared kind by kind,
/// inputs and kinds of outputs, all others not at all.
pub struct IrCacheable;

impl IrCacheable {
    /// Whether nodes of a kind are shared.
    pub fn should_cache(kind: &NodeKind) -> (r: bool)
        ensures
            r == kind.cacheable(),
    {
        kind.is_cacheable()
    }

    /// The hash of a structure by a hasher that starts at zero; equal structures
    /// hash alike.
    pub fn hash(kind: &NodeKind, inputs: &[ValueId], outputs: &[ValueKind]) -> (r: u64)
        ensures
            r == fx_finish(fx_words(0, node_key(*kind, inputs@, outputs@))),
    {
        hash_borrowed_key(hasher_new(), kind, inputs, outputs)
    }

    /// Whether a node has the given structure.
    pub fn eq(
        graph: &Graph,
        cand: NodeId,
        kind: &NodeKind,
        inputs: &[ValueId],
        outputs: &[ValueKind],
    ) -> (r: bool)
        requires
            graph.wf(),
            graph@.has_node(cand),
        ensures
            r == (graph@.kind(cand) == *kind && graph@.ins(cand) == inputs@ && graph@.out_kinds(
                cand,
            ) == outputs@),
    {
        if *graph.node_kind(cand) != *kind {
            return false;
        }
        let ins = graph.node_inputs(cand).iter();
        if ins.len() != inputs.len() {
            return false;
        }
        let mut i: usize = 0;
        while i < inputs.len()
            invariant
                i <= inputs.len(),
                ins@ == graph@.ins(cand),
                ins@.len() == inputs@.len(),
                forall|k: int| 0 <= k < i ==> ins@[k] == #[trigger] inputs@[k],
            decreases inputs.len() - i,
        {
            if ins[i] != inputs[i] {
                return false;
            }
            i += 1;
        }
        assert(graph@.ins(cand) =~= inputs@);
        let outs = graph.node_outputs(cand);
        if outs.len() != outputs.len() {
            return false;
        }
        let mut j: usize = 0;
        while j < outputs.len()
            invariant
                graph.wf(),
                j <= outputs.len(),
                outs@ == graph@.outs(cand),
                outs@.len() == outputs@.len(),
                forall|k: int| 0 <= k < outs@.len() ==> graph@.has_value(#[trigger] outs@[k]),
                forall|k: int|
                    0 <= k < j ==> graph@.out_kinds(cand)[k] == #[trigger] outputs@[k],
            decreases outputs.len() - j,
        {
            if graph.output_kind(outs[j]) != outputs[j] {
                assert(graph@.out_kinds(cand)[j as int] != outputs@[j as int]);
                return false;
            }
            j += 1;
        }
        assert(graph@.out_kinds(cand) =~= outputs@);
        true
    }
}

} // verus!
