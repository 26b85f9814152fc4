//! Node creation and the dedup cache.

use super::model::{
    lemma_cached_valid, lemma_evicted_valid, lemma_new_cache_valid, lemma_with_input_valid,
    lemma_with_kind_valid, lemma_with_node_valid, lemma_with_output_valid, GraphModel,
};
use super::Graph;
use crate::arena::NodeData;
use crate::cache::{build_key, law_key_identifies_structure, DedupTable};
use crate::node::{NodeId, NodeKind, ValueId, ValueKind};
use vstd::prelude::*;

verus! {

impl Graph {
    /// The values a node reads.
    pub(super) fn input_values(&self, node_id: NodeId) -> (r: Vec<ValueId>)
        requires
            self.wf(),
            self@.has_node(node_id),
        ensures
            r@ == self@.ins(node_id),
    {
        let slots = &self.nodes.at(node_id).inputs;
        let mut r: Vec<ValueId> = Vec::new();
        let mut i: usize = 0;
        while i < slots.len()
            invariant
                self.wf(),
                self@.has_node(node_id),
                slots@ == self@.slots(node_id),
                i <= slots.len(),
                r@ == self@.ins(node_id).take(i as int),
            decreases slots.len() - i,
        {
            assert(self@.slot_ok(node_id.0 as int, i as int)) by {
                assert(self@.nodes[node_id.0 as int].inputs[i as int] == slots@[i as int]);
            }
            r.push(self.uses.at(slots[i]).value);
            i += 1;
            assert(r@ =~= self@.ins(node_id).take(i as int));
        }
        assert(self@.ins(node_id).take(i as int) =~= self@.ins(node_id));
        r
    }

    /// The kinds of the values a node defines.
    pub(super) fn output_kinds(&self, node_id: NodeId) -> (r: Vec<ValueKind>)
        requires
            self.wf(),
            self@.has_node(node_id),
        ensures
            r@ == self@.out_kinds(node_id),
    {
        let outputs = &self.nodes.at(node_id).outputs;
        let mut r: Vec<ValueKind> = Vec::new();
        let mut i: usize = 0;
        while i < outputs.len()
            invariant
                self.wf(),
                self@.has_node(node_id),
                outputs@ == self@.outs(node_id),
                i <= outputs.len(),
                r@ == self@.out_kinds(node_id).take(i as int),
            decreases outputs.len() - i,
        {
            assert(self@.output_ok(node_id.0 as int, i as int)) by {
                assert(self@.nodes[node_id.0 as int].outputs[i as int] == outputs@[i as int]);
            }
            r.push(self.values.at(outputs[i]).kind);
            i += 1;
            assert(r@ =~= self@.out_kinds(node_id).take(i as int));
        }
        assert(self@.out_kinds(node_id).take(i as int) =~= self@.out_kinds(node_id));
        r
    }

    /// The structural key of a node.
    fn key_of(&self, node_id: NodeId) -> (r: Vec<u64>)
        requires
            self.wf(),
            self@.has_node(node_id),
        ensures
            r@ == self@.key(node_id),
    {
        let inputs = self.input_values(node_id);
        let outputs = self.output_kinds(node_id);
        build_key(&self.nodes.at(node_id).kind, &inputs, &outputs)
    }

    /// Takes the structure a node has now out of the cache, if its kind is
    /// shared.
    pub(super) fn evict_cache_entry_if_cacheable(&mut self, node_id: NodeId)
        requires
            old(self).wf(),
            old(self)@.has_node(node_id),
        ensures
            final(self).wf(),
            final(self)@ == old(self)@.evicted(node_id),
    {
        reveal(Graph::chained);
        let ghost g = self@;
        proof {
            lemma_evicted_valid(g, node_id);
        }
        if self.nodes.at(node_id).kind.is_cacheable() {
            let key = self.key_of(node_id);
            self.node_to_id.remove(&key);
            proof {
                assert(self@.values =~= g.values);
                assert(self@.uses =~= g.uses);
                assert(self@ =~= g.evicted(node_id));
                assert forall|w: int, k: int|
                    #![trigger self.lists@[w][k]]
                    0 <= w < self.lists@.len() && 0 <= k
                        < self.lists@[w].len() implies self.link_ok(w, k) by {
                    assert(old(self).link_ok(w, k));
                }
            }
        }
    }

    /// Enters a node into the cache under the structure it has.
    fn insert_cache_entry(&mut self, node_id: NodeId)
        requires
            old(self).wf(),
            old(self)@.has_node(node_id),
            old(self)@.kind(node_id).cacheable(),
        ensures
            final(self).wf(),
            final(self)@ == old(self)@.cached(node_id),
    {
        let ghost g = self@;
        let key = self.key_of(node_id);
        self.node_to_id.insert(key, node_id.0);
        proof {
            reveal(Graph::chained);
            assert(self@.values =~= g.values);
            assert(self@.uses =~= g.uses);
            assert(self@ =~= g.cached(node_id));
            lemma_cached_valid(g, node_id);
        }
    }

    /// Adds a node without inputs and outputs.
    pub(super) fn alloc_node(&mut self, kind: NodeKind) -> (r: NodeId)
        requires
            old(self).wf(),
            old(self)@.has_room(1, 0, 0),
        ensures
            final(self).wf(),
            r.0 == old(self)@.nodes.len(),
            final(self)@ == old(self)@.with_node(kind),
    {
        let ghost g = self@;
        let r = self.nodes.push(NodeData { kind, inputs: Vec::new(), outputs: Vec::new() });
        proof {
            reveal(Graph::chained);
            assert(self@.values =~= g.values);
            assert(self@.uses =~= g.uses);
            assert(self@ =~= g.with_node(kind));
            lemma_with_node_valid(g, kind);
        }
        r
    }

    /// Creates a node with the given kind, inputs and output kinds.
    ///
    /// Of a kind that is shared by structure, the node of that structure the
    /// graph already has is returned in place of a new one.
    pub fn create_node(
        &mut self,
        kind: NodeKind,
        inputs: &[ValueId],
        output_kinds: &[ValueKind],
    ) -> (r: NodeId)
        requires
            old(self).wf(),
            forall|i: int| 0 <= i < inputs@.len() ==> old(self)@.has_value(#[trigger] inputs@[i]),
            old(self)@.has_room(1, inputs@.len() as int, output_kinds@.len() as int),
        ensures
            final(self).wf(),
            r == old(self)@.created_id(kind, inputs@, output_kinds@),
            final(self)@ == old(self)@.created(kind, inputs@, output_kinds@),
            final(self)@.extends(old(self)@),
            final(self)@.has_node(r),
            final(self)@.kind(r) == kind,
            final(self)@.ins(r) == inputs@,
            final(self)@.out_kinds(r) == output_kinds@,
            final(self)@.nodes.len() <= old(self)@.nodes.len() + 1,
            final(self)@.uses.len() <= old(self)@.uses.len() + inputs@.len(),
            final(self)@.values.len() <= old(self)@.values.len() + output_kinds@.len(),
    {
        let ghost g = self@;
        if kind.is_cacheable() {
            let key = build_key(&kind, inputs, output_kinds);
            if let Some(found) = self.node_to_id.get(&key) {
                let r = NodeId(found);
                proof {
                    assert(g.cache.contains_key(key@));
                    assert(g.entry_ok(key@));
                    assert(g.nodes[found as int].inputs.len() <= g.uses.len());
                    law_key_identifies_structure(
                        kind,
                        inputs@,
                        output_kinds@,
                        g.kind(r),
                        g.ins(r),
                        g.out_kinds(r),
                    );
                }
                return r;
            }
        }
        let n = self.alloc_node(kind);
        let ghost g1 = self@;
        proof {
            assert(inputs@.take(0) =~= Seq::<ValueId>::empty());
            assert(g1.ins(n) =~= inputs@.take(0));
            assert(g1.out_kinds(n) =~= Seq::<ValueKind>::empty());
            assert forall|key: Seq<u64>| #[trigger] g.cache.contains_key(key) implies g.cache[key]
                != n.0 by {
                assert(g.entry_ok(key));
            }
        }
        let mut i: usize = 0;
        while i < inputs.len()
            invariant
                i <= inputs.len(),
                n.0 == g.nodes.len(),
                forall|j: int| 0 <= j < inputs@.len() ==> g.has_value(#[trigger] inputs@[j]),
                g.has_room(1, inputs@.len() as int, output_kinds@.len() as int),
                forall|key: Seq<u64>| #[trigger] g.cache.contains_key(key) ==> g.cache[key] != n.0,
                self.wf(),
                self@ == g1.with_inputs(n, inputs@.take(i as int)),
                self@.extends(g),
                self@.cache == g.cache,
                self@.nodes.len() == g.nodes.len() + 1,
                self@.values.len() == g.values.len(),
                self@.uses.len() == g.uses.len() + i,
                self@.kind(n) == kind,
                self@.ins(n) == inputs@.take(i as int),
                self@.out_kinds(n) == Seq::<ValueKind>::empty(),
            decreases inputs.len() - i,
        {
            let ghost before = self@;
            proof {
                lemma_with_input_valid(before, n, inputs@[i as int]);
                let next = inputs@.take(i + 1);
                assert(next.drop_last() =~= inputs@.take(i as int));
                assert(next.last() == inputs@[i as int]);
                assert(next =~= inputs@.take(i as int).push(inputs@[i as int]));
            }
            self.append_input(n, inputs[i]);
            i += 1;
        }
        assert(inputs@.take(i as int) =~= inputs@);
        let ghost g2 = self@;
        proof {
            assert(output_kinds@.take(0) =~= Seq::<ValueKind>::empty());
        }
        let mut j: usize = 0;
        while j < output_kinds.len()
            invariant
                j <= output_kinds.len(),
                n.0 == g.nodes.len(),
                g.has_room(1, inputs@.len() as int, output_kinds@.len() as int),
                forall|key: Seq<u64>| #[trigger] g.cache.contains_key(key) ==> g.cache[key] != n.0,
                self.wf(),
                self@ == g2.with_outputs(n, output_kinds@.take(j as int)),
                self@.extends(g),
                self@.cache == g.cache,
                self@.nodes.len() == g.nodes.len() + 1,
                self@.values.len() == g.values.len() + j,
                self@.uses.len() == g.uses.len() + inputs@.len(),
                self@.kind(n) == kind,
                self@.ins(n) == inputs@,
                self@.out_kinds(n) == output_kinds@.take(j as int),
            decreases output_kinds.len() - j,
        {
            let ghost before = self@;
            proof {
                lemma_with_output_valid(before, n, output_kinds@[j as int]);
                let next = output_kinds@.take(j + 1);
                assert(next.drop_last() =~= output_kinds@.take(j as int));
                assert(next.last() == output_kinds@[j as int]);
                assert(next =~= output_kinds@.take(j as int).push(output_kinds@[j as int]));
            }
            self.append_output(n, output_kinds[j]);
            j += 1;
        }
        assert(output_kinds@.take(j as int) =~= output_kinds@);
        if kind.is_cacheable() {
            let ghost g3 = self@;
            self.insert_cache_entry(n);
            assert(self@.ins(n) =~= g3.ins(n));
            assert(self@.out_kinds(n) =~= g3.out_kinds(n));
        }
        n
    }

    /// If another node of a shared kind is cached under the structure of
    /// `node_id`, returns it; otherwise enters `node_id` into the cache.
    pub fn canonicalize_node(&mut self, node_id: NodeId) -> (r: Option<NodeId>)
        requires
            old(self).wf(),
            old(self)@.has_node(node_id),
        ensures
            final(self).wf(),
            ({
                let g = old(self)@;
                let hit = g.kind(node_id).cacheable() && g.cache.contains_key(g.key(node_id));
                if hit {
                    &&& final(self)@ == g
                    &&& r == (if g.cache[g.key(node_id)] == node_id.0 {
                        None
                    } else {
                        Some(NodeId(g.cache[g.key(node_id)]))
                    })
                } else {
                    &&& r == None::<NodeId>
                    &&& final(self)@ == (if g.kind(node_id).cacheable() {
                        g.cached(node_id)
                    } else {
                        g
                    })
                }
            }),
            r matches Some(twin) ==> {
                &&& final(self)@.has_node(twin)
                &&& final(self)@.kind(twin) == final(self)@.kind(node_id)
                &&& final(self)@.ins(twin) == final(self)@.ins(node_id)
                &&& final(self)@.out_kinds(twin) == final(self)@.out_kinds(node_id)
            },
    {
        if !self.nodes.at(node_id).kind.is_cacheable() {
            return None;
        }
        let key = self.key_of(node_id);
        match self.node_to_id.get(&key) {
            Some(found) => {
                let ghost g = self@;
                proof {
                    assert(g.entry_ok(key@));
                    assert(g.nodes[found as int].inputs.len() <= g.uses.len());
                    assert(g.nodes[node_id.0 as int].inputs.len() <= g.uses.len());
                    law_key_identifies_structure(
                        g.kind(node_id),
                        g.ins(node_id),
                        g.out_kinds(node_id),
                        g.kind(NodeId(found)),
                        g.ins(NodeId(found)),
                        g.out_kinds(NodeId(found)),
                    );
                }
                if found == node_id.0 {
                    None
                } else {
                    Some(NodeId(found))
                }
            },
            None => {
                self.insert_cache_entry(node_id);
                None
            },
        }
    }

    /// Empties the cache.
    pub(crate) fn clear_cache(&mut self)
        requires
            old(self).wf(),
        ensures
            final(self).wf(),
            final(self)@ == old(self)@.uncached(),
    {
        let ghost g = self@;
        self.node_to_id = DedupTable::new();
        proof {
            reveal(Graph::chained);
            assert(self@.values =~= g.values);
            assert(self@.uses =~= g.uses);
            assert(self@.cache =~= Map::<Seq<u64>, u32>::empty());
            assert(self@ =~= g.uncached());
            lemma_new_cache_valid(g, Map::<Seq<u64>, u32>::empty());
        }
    }

    /// Builds the cache anew over every node, in id order.
    pub fn rebuild_cache(&mut self)
        requires
            old(self).wf(),
        ensures
            final(self).wf(),
            final(self)@ == old(self)@.recached(),
    {
        let ghost g = self@;
        self.clear_cache();
        let ghost e = self@;
        let len = self.nodes.len();
        let mut i: usize = 0;
        while i < len
            invariant
                self.wf(),
                len == g.nodes.len(),
                g.nodes.len() <= u32::MAX,
                i <= len,
                self@ == (GraphModel { cache: g.cache_of_first(i as nat), ..g }),
            decreases len - i,
        {
            let node_id = NodeId(i as u32);
            if self.nodes.at(node_id).kind.is_cacheable() {
                assert(self@.ins(node_id) =~= g.ins(node_id));
                assert(self@.out_kinds(node_id) =~= g.out_kinds(node_id));
                self.insert_cache_entry(node_id);
            }
            i += 1;
        }
    }

    /// Replaces the kind of a node, which no cache entry may speak of.
    pub(crate) fn set_kind(&mut self, node_id: NodeId, kind: NodeKind)
        requires
            old(self).wf(),
            old(self)@.has_node(node_id),
            forall|key: Seq<u64>|
                #[trigger] old(self)@.cache.contains_key(key) ==> old(self)@.cache[key]
                    != node_id.0,
        ensures
            final(self).wf(),
            final(self)@ == old(self)@.with_kind(node_id, kind),
    {
        let ghost g = self@;
        self.nodes.at_mut(node_id).kind = kind;
        proof {
            reveal(Graph::chained);
            assert(self@.values =~= g.values);
            assert(self@.uses =~= g.uses);
            assert(self@ =~= g.with_kind(node_id, kind));
            lemma_with_kind_valid(g, node_id, kind);
        }
    }
}

} // verus!
