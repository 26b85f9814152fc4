//! Use lists: every change of a `(slot, value)` edge keeps both directions of
//! the doubly linked list in step.

use super::model::{
    all_listed, drop_use, kept_from, lemma_detached_valid, lemma_drop_contains, lemma_redirected_valid,
    lemma_slots_listed, lemma_unlinked_all, lemma_with_input_valid, lemma_with_output_valid,
    lemma_without_input_valid, GraphModel,
};
use super::{item, Graph};
use crate::arena::{UseData, ValueData};
use crate::error::IrError;
use crate::iterators::InputCursor;
use crate::node::{NodeId, UseId, ValueId, ValueKind};
use vstd::prelude::*;

verus! {

impl Graph {
    /// Puts a slot at the head of the list of the value it reads.
    pub(super) fn link_use_to_value_list(&mut self, input_id: UseId)
        requires
            old(self).chained(),
            old(self)@.has_use(input_id),
            old(self)@.has_value(old(self)@.uses[input_id.0 as int].value),
            old(self).uses@[input_id.0 as int].prev is None,
            !old(self)@.readers(old(self)@.uses[input_id.0 as int].value).contains(input_id),
        ensures
            final(self).chained(),
            final(self)@ == (GraphModel {
                lists: old(self)@.lists.update(
                    old(self)@.uses[input_id.0 as int].value.0 as int,
                    seq![input_id] + old(self)@.readers(old(self)@.uses[input_id.0 as int].value),
                ),
                ..old(self)@
            }),
    {
        reveal(Graph::chained);
        let ghost u = input_id.0 as int;
        let value = self.uses.at(input_id).value;
        let ghost v = value.0 as int;
        let ghost list = self.lists@[v];
        let head = self.values.at(value).first_use;
        self.uses.at_mut(input_id).next = head;
        if let Some(next) = head {
            assert(list[0] == next);
            assert(old(self).link_ok(v, 0));
            self.uses.at_mut(next).prev = Some(input_id);
        }
        self.values.at_mut(value).first_use = Some(input_id);
        proof {
            self.lists@ = self.lists@.update(v, seq![input_id] + list);
            let new = seq![input_id] + list;
            assert(self.lists@[v] == new);
            assert forall|w: int| 0 <= w < self.lists@.len() implies (
            #[trigger] self.lists@[w]).no_duplicates() by {
                assert(old(self).lists@[w].no_duplicates());
                if w == v {
                    assert forall|i: int, j: int| 0 <= i < j < new.len() implies new[i]
                        != new[j] by {
                        assert(new[j] == list[j - 1]);
                        if i > 0 {
                            assert(new[i] == list[i - 1]);
                        }
                    }
                }
            }
            assert forall|w: int, i: int|
                #![trigger self.lists@[w][i]]
                0 <= w < self.lists@.len() && 0 <= i < self.lists@[w].len() implies self.link_ok(
                w,
                i,
            ) by {
                if w == v {
                    if i == 0 {
                    } else {
                        assert(new[i] == list[i - 1]);
                        assert(old(self).link_ok(v, i - 1));
                        assert(list[i - 1] != input_id);
                        if i > 1 {
                            assert(list[i - 1] != list[0]);
                        }
                    }
                } else {
                    assert(old(self).link_ok(w, i));
                    if list.len() > 0 {
                        assert(old(self).link_ok(v, 0));
                    }
                }
            }
            assert(self@.values =~= old(self)@.values);
            assert(self@.uses =~= old(self)@.uses);
        }
    }

    /// Takes a slot out of the list of the value it reads, and clears its
    /// links.
    pub(super) fn unlink_use_from_value_list(&mut self, input_id: UseId)
        requires
            old(self).chained(),
            old(self)@.has_use(input_id),
            old(self)@.has_value(old(self)@.uses[input_id.0 as int].value),
            old(self)@.readers(old(self)@.uses[input_id.0 as int].value).contains(input_id),
        ensures
            final(self).chained(),
            final(self)@ == old(self)@.unlinked(input_id),
            final(self).uses@[input_id.0 as int].prev is None,
    {
        reveal(Graph::chained);
        let data = *self.uses.at(input_id);
        let value = data.value;
        let ghost v = value.0 as int;
        let ghost list = self.lists@[v];
        let ghost k = list.index_of(input_id);
        assert(0 <= k < list.len() && list[k] == input_id);
        assert(old(self).link_ok(v, k));
        let first = self.values.at(value).first_use;
        if first == Some(input_id) {
            assert(k == 0) by {
                assert(list[0] == input_id);
                assert(list.no_duplicates());
            }
            self.values.at_mut(value).first_use = data.next;
        }
        if let Some(prev) = data.prev {
            assert(prev == list[k - 1]);
            assert(old(self).link_ok(v, k - 1));
            self.uses.at_mut(prev).next = data.next;
        }
        if let Some(next) = data.next {
            assert(next == list[k + 1]);
            assert(old(self).link_ok(v, k + 1));
            self.uses.at_mut(next).prev = data.prev;
        }
        self.uses.at_mut(input_id).prev = None;
        self.uses.at_mut(input_id).next = None;
        proof {
            let new = drop_use(list, input_id);
            self.lists@ = self.lists@.update(v, new);
            lemma_drop_contains(list, input_id, input_id);
            assert(new =~= list.remove(k));
            assert forall|w: int, i: int|
                #![trigger self.lists@[w][i]]
                0 <= w < self.lists@.len() && 0 <= i < self.lists@[w].len() implies self.link_ok(
                w,
                i,
            ) by {
                if w == v {
                    let j = if i < k {
                        i
                    } else {
                        i + 1
                    };
                    assert(new[i] == list[j]);
                    assert(old(self).link_ok(v, j));
                    assert(list[j] != list[k]);
                    if k > 0 && j != k - 1 {
                        assert(list[j] != list[k - 1]);
                    }
                    if k + 1 < list.len() && j != k + 1 {
                        assert(list[j] != list[k + 1]);
                    }
                } else {
                    assert(old(self).link_ok(w, i));
                }
            }
            assert forall|w: int| 0 <= w < self.lists@.len() implies (
            #[trigger] self.lists@[w]).no_duplicates() by {
                assert(old(self).lists@[w].no_duplicates());
            }
            assert forall|w: int|
                #![trigger self.lists@[w]]
                0 <= w < self.lists@.len() implies self.values@[w].first_use == item(
                self.lists@[w],
                0,
            ) by {
                assert(old(self).values@[w].first_use == item(old(self).lists@[w], 0));
            }
            assert(self@.values =~= old(self)@.values);
            assert(self@.uses =~= old(self)@.uses);
        }
    }

    /// Appends an input reading `value` to a node the cache says nothing of.
    pub(super) fn append_input(&mut self, node_id: NodeId, value_id: ValueId)
        requires
            old(self).wf(),
            old(self)@.has_node(node_id),
            old(self)@.has_value(value_id),
            old(self)@.has_room(0, 1, 0),
            forall|key: Seq<u64>|
                #[trigger] old(self)@.cache.contains_key(key) ==> old(self)@.cache[key]
                    != node_id.0,
        ensures
            final(self).wf(),
            final(self)@ == old(self)@.with_input(node_id, value_id),
    {
        reveal(Graph::chained);
        let ghost g = self@;
        let ghost v = value_id.0 as int;
        let index = self.nodes.at(node_id).inputs.len();
        assert(g.nodes[node_id.0 as int].inputs.len() <= g.uses.len());
        let use_id = self.uses.push(
            UseData { value: value_id, node: node_id, index: index as u32, prev: None, next: None },
        );
        self.nodes.at_mut(node_id).inputs.push(use_id);
        proof {
            assert forall|w: int, i: int|
                #![trigger self.lists@[w][i]]
                0 <= w < self.lists@.len() && 0 <= i < self.lists@[w].len() implies self.link_ok(
                w,
                i,
            ) by {
                assert(old(self).link_ok(w, i));
            }
            if self.lists@[v].contains(use_id) {
                let i = self.lists@[v].index_of(use_id);
                assert(self.lists@[v][i] == use_id);
                assert(old(self).link_ok(v, i));
            }
        }
        self.link_use_to_value_list(use_id);
        proof {
            assert(self@.nodes =~= g.with_input(node_id, value_id).nodes);
            assert(self@.uses =~= g.with_input(node_id, value_id).uses);
            assert(self@ =~= g.with_input(node_id, value_id));
            lemma_with_input_valid(g, node_id, value_id);
        }
    }

    /// Appends an output of the given kind to a node the cache says nothing of.
    pub(super) fn append_output(&mut self, node_id: NodeId, kind: ValueKind)
        requires
            old(self).wf(),
            old(self)@.has_node(node_id),
            old(self)@.has_room(0, 0, 1),
            forall|key: Seq<u64>|
                #[trigger] old(self)@.cache.contains_key(key) ==> old(self)@.cache[key]
                    != node_id.0,
        ensures
            final(self).wf(),
            final(self)@ == old(self)@.with_output(node_id, kind),
    {
        reveal(Graph::chained);
        let ghost g = self@;
        let index = self.nodes.at(node_id).outputs.len();
        assert(g.nodes[node_id.0 as int].outputs.len() <= g.values.len());
        let value_id = self.values.push(
            ValueData { kind, source: node_id, index: index as u32, first_use: None },
        );
        self.nodes.at_mut(node_id).outputs.push(value_id);
        proof {
            self.lists@ = self.lists@.push(Seq::empty());
            assert forall|w: int, i: int|
                #![trigger self.lists@[w][i]]
                0 <= w < self.lists@.len() && 0 <= i < self.lists@[w].len() implies self.link_ok(
                w,
                i,
            ) by {
                assert(old(self).link_ok(w, i));
            }
            assert forall|w: int|
                #![trigger self.lists@[w]]
                0 <= w < self.lists@.len() implies self.values@[w].first_use == item(
                self.lists@[w],
                0,
            ) && self.lists@[w].no_duplicates() by {
                if w < old(self).lists@.len() {
                    assert(old(self).values@[w].first_use == item(old(self).lists@[w], 0));
                }
            }
            assert(self@.nodes =~= g.with_output(node_id, kind).nodes);
            assert(self@.values =~= g.with_output(node_id, kind).values);
            assert(self@.uses =~= g.uses);
            assert(self@ =~= g.with_output(node_id, kind));
            lemma_with_output_valid(g, node_id, kind);
        }
    }

    /// Appends an input reading `value_id` to `node_id`.
    ///
    /// Fails on a node that is shared by structure: its inputs are its
    /// identity.
    pub fn add_node_input(&mut self, node_id: NodeId, value_id: ValueId) -> (r: Result<
        (),
        IrError,
    >)
        requires
            old(self).wf(),
            old(self)@.has_node(node_id),
            old(self)@.has_value(value_id),
            old(self)@.has_room(0, 1, 0),
        ensures
            final(self).wf(),
            old(self)@.kind(node_id).cacheable() ==> r == Err::<(), IrError>(
                IrError::AddToCacheable { node: node_id },
            ) && final(self)@ == old(self)@,
            !old(self)@.kind(node_id).cacheable() ==> r is Ok && final(self)@
                == old(self)@.with_input(node_id, value_id),
    {
        if self.nodes.at(node_id).kind.is_cacheable() {
            return Err(IrError::AddToCacheable { node: node_id });
        }
        assert forall|key: Seq<u64>| #[trigger] self@.cache.contains_key(key) implies self@.cache[key]
            != node_id.0 by {
            assert(self@.entry_ok(key));
        }
        self.append_input(node_id, value_id);
        Ok(())
    }

    /// Takes out the input at position `index` of `node_id`; the later inputs
    /// move up.
    ///
    /// Fails on a node that is shared by structure, and on a position past the
    /// inputs.
    pub fn remove_node_input(&mut self, node_id: NodeId, index: u32) -> (r: Result<(), IrError>)
        requires
            old(self).wf(),
            old(self)@.has_node(node_id),
        ensures
            final(self).wf(),
            r == (if old(self)@.kind(node_id).cacheable() {
                Err::<(), IrError>(IrError::RemoveFromCacheable { node: node_id })
            } else if index >= old(self)@.slots(node_id).len() {
                Err(
                    IrError::InputOutOfBounds {
                        node: node_id,
                        index: index as usize,
                        len: old(self)@.slots(node_id).len() as usize,
                    },
                )
            } else {
                Ok(())
            }),
            r is Err ==> final(self)@ == old(self)@,
            r is Ok ==> final(self)@ == old(self)@.without_input(node_id, index as int),
    {
        reveal(Graph::chained);
        if self.nodes.at(node_id).kind.is_cacheable() {
            return Err(IrError::RemoveFromCacheable { node: node_id });
        }
        let index: usize = index as usize;
        let len = self.nodes.at(node_id).inputs.len();
        if index >= len {
            return Err(IrError::InputOutOfBounds { node: node_id, index, len });
        }
        let ghost g = self@;
        let ghost n = node_id.0 as int;
        let use_id = self.nodes.at(node_id).inputs[index];
        assert(g.slot_ok(n, index as int)) by {
            assert(g.nodes[n].inputs[index as int] == use_id);
        }
        self.unlink_use_from_value_list(use_id);
        let ghost m = self@;
        self.nodes.at_mut(node_id).inputs.remove(index);
        let ghost slots = g.slots(node_id);
        let mut i: usize = index;
        let ghost before_loop = *self;
        while i < self.nodes.at(node_id).inputs.len()
            invariant
                g.valid(),
                g.has_node(node_id),
                n == node_id.0,
                slots == g.slots(node_id),
                index < slots.len(),
                use_id == slots[index as int],
                index <= i <= slots.len() - 1,
                before_loop.chained(),
                before_loop@.uses == g.uses,
                before_loop@.values == g.values,
                before_loop@.lists == g.unlinked(use_id).lists,
                before_loop@.cache == g.cache,
                before_loop@.generation == g.generation,
                before_loop@.nodes == g.without_input(node_id, index as int).nodes,
                self.nodes == before_loop.nodes,
                self.values == before_loop.values,
                self.lists == before_loop.lists,
                self.node_to_id == before_loop.node_to_id,
                self.generation == before_loop.generation,
                self.uses@.len() == before_loop.uses@.len(),
                forall|x: int|
                    #![trigger self.uses@[x]]
                    0 <= x < self.uses@.len() ==> self.uses@[x] == (if g.follows(
                        x,
                        node_id,
                        index as int,
                    ) && g.uses[x].index <= i {
                        UseData {
                            index: (g.uses[x].index - 1) as u32,
                            ..before_loop.uses@[x]
                        }
                    } else {
                        before_loop.uses@[x]
                    }),
            decreases slots.len() - 1 - i,
        {
            let later = self.nodes.at(node_id).inputs[i];
            assert(later == slots[i + 1]);
            assert(g.slot_ok(n, i + 1)) by {
                assert(g.nodes[n].inputs[i + 1] == later);
            }
            let ghost prior = self.uses@;
            assert(UseId(later.0 as int as u32) == later);
            assert(g.follows(later.0 as int, node_id, index as int));
            assert(before_loop@.uses[later.0 as int] == before_loop.uses@[later.0 as int].model());
            assert(self.uses@[later.0 as int] == before_loop.uses@[later.0 as int]);
            self.uses.at_mut(later).index -= 1;
            i += 1;
            assert forall|x: int|
                #![trigger self.uses@[x]]
                0 <= x < self.uses@.len() implies self.uses@[x] == (if g.follows(
                x,
                node_id,
                index as int,
            ) && g.uses[x].index <= i {
                UseData { index: (g.uses[x].index - 1) as u32, ..before_loop.uses@[x] }
            } else {
                before_loop.uses@[x]
            }) by {
                assert(before_loop@.uses[x] == before_loop.uses@[x].model());
                if x != later.0 {
                    assert(self.uses@[x] == prior[x]);
                    if g.follows(x, node_id, index as int) && g.uses[x].index == i {
                        assert(slots[i as int] == UseId(x as u32));
                    }
                }
            }
        }
        proof {
            let h = g.without_input(node_id, index as int);
            assert forall|x: int| 0 <= x < self@.uses.len() implies self@.uses[x]
                == h.uses[x] by {
                assert(before_loop@.uses[x] == before_loop.uses@[x].model());
                assert(self@.uses[x] == self.uses@[x].model());
                if g.follows(x, node_id, index as int) {
                    assert(g.uses[x].index < slots.len());
                }
            }
            assert(self@.uses =~= h.uses);
            assert(self@.values =~= g.values) by {
                assert(self@.values =~= before_loop@.values);
            }
            assert(self@ =~= h);
            lemma_without_input_valid(g, node_id, index as int);
            assert forall|w: int, k: int|
                #![trigger self.lists@[w][k]]
                0 <= w < self.lists@.len() && 0 <= k < self.lists@[w].len() implies self.link_ok(
                w,
                k,
            ) by {
                assert(before_loop.link_ok(w, k));
            }
        }
        Ok(())
    }

    /// Redirects an input slot to read `value_id`. The slot moves to the head
    /// of the list of its new value; the cache forgets the structure its node
    /// had. Redirecting to the value it reads already is nothing.
    pub fn update_input(&mut self, input_id: UseId, value_id: ValueId)
        requires
            old(self).wf(),
            old(self)@.has_use(input_id),
            old(self)@.attached(input_id),
            old(self)@.has_value(value_id),
        ensures
            final(self).wf(),
            final(self)@ == old(self)@.redirected(input_id, value_id),
    {
        reveal(Graph::chained);
        let data = *self.uses.at(input_id);
        let ghost g = self@;
        assert(g.uses[input_id.0 as int] == data.model());
        if data.value == value_id {
            return ;
        }
        self.evict_cache_entry_if_cacheable(data.node);
        let ghost e = self@;
        assert(e == g.evicted(data.node));
        assert(e.slot_ok(data.node.0 as int, data.index as int)) by {
            assert(e.nodes[data.node.0 as int].inputs[data.index as int] == input_id);
        }
        self.unlink_use_from_value_list(input_id);
        let ghost mid = *self;
        self.uses.at_mut(input_id).value = value_id;
        proof {
            lemma_drop_contains(e.readers(data.value), input_id, input_id);
            assert forall|w: int, i: int|
                #![trigger self.lists@[w][i]]
                0 <= w < self.lists@.len() && 0 <= i < self.lists@[w].len() implies self.link_ok(
                w,
                i,
            ) by {
                assert(mid.link_ok(w, i));
                if w == data.value.0 {
                    assert(self.lists@[w].contains(self.lists@[w][i]));
                }
            }
            assert forall|w: int| 0 <= w < self.lists@.len() implies (
            #[trigger] self.lists@[w]).no_duplicates() by {
                assert(mid.lists@[w].no_duplicates());
            }
            if self.lists@[value_id.0 as int].contains(input_id) {
                let i = self.lists@[value_id.0 as int].index_of(input_id);
                assert(self.lists@[value_id.0 as int][i] == input_id);
                assert(mid.link_ok(value_id.0 as int, i));
                assert(mid@.uses[input_id.0 as int] == mid.uses@[input_id.0 as int].model());
            }
            assert(self@.uses[input_id.0 as int] == self.uses@[input_id.0 as int].model());
        }
        self.link_use_to_value_list(input_id);
        proof {
            let h = g.redirected(input_id, value_id);
            assert(self@.uses =~= h.uses) by {
                assert forall|x: int| 0 <= x < self@.uses.len() implies self@.uses[x]
                    == h.uses[x] by {
                    assert(mid@.uses[x] == mid.uses@[x].model());
                }
            }
            assert(self@.values =~= g.values);
            assert(self@.lists =~= h.lists);
            assert(self@ =~= h);
            lemma_redirected_valid(g, input_id, value_id);
        }
    }

    /// Takes out every input of `node_id`; the cache forgets the structure it
    /// had.
    pub fn detach_node_inputs(&mut self, node_id: NodeId)
        requires
            old(self).wf(),
            old(self)@.has_node(node_id),
        ensures
            final(self).wf(),
            final(self)@ == old(self)@.detached(node_id),
    {
        reveal(Graph::chained);
        let ghost g = self@;
        self.evict_cache_entry_if_cacheable(node_id);
        let ghost e = self@;
        let mut i: usize = 0;
        let len = self.nodes.at(node_id).inputs.len();
        let ghost slots = e.slots(node_id);
        proof {
            lemma_slots_listed(e, node_id);
            assert(slots.take(0) =~= Seq::<UseId>::empty());
            reveal_with_fuel(GraphModel::unlinked_all, 1);
        }
        while i < len
            invariant
                e.valid(),
                e.has_node(node_id),
                slots == e.slots(node_id),
                all_listed(e, slots),
                len == slots.len(),
                i <= len,
                self.chained(),
                self@ == e.unlinked_all(slots.take(i as int)),
            decreases len - i,
        {
            let ghost prefix = slots.take(i as int);
            proof {
                assert(all_listed(e, prefix)) by {
                    assert forall|k: int| 0 <= k < prefix.len() implies e.has_use(
                        #[trigger] prefix[k],
                    ) && e.has_value(e.uses[prefix[k].0 as int].value) && e.readers(
                        e.uses[prefix[k].0 as int].value,
                    ).contains(prefix[k]) by {
                        assert(prefix[k] == slots[k]);
                    }
                }
                lemma_unlinked_all(e, prefix);
            }
            let use_id = self.nodes.at(node_id).inputs[i];
            proof {
                assert(use_id == slots[i as int]);
                let w = e.uses[use_id.0 as int].value.0 as int;
                assert(!prefix.contains(use_id)) by {
                    if prefix.contains(use_id) {
                        let k = prefix.index_of(use_id);
                        assert(slots[k] == slots[i as int]);
                    }
                }
                assert(e.unlinked_all(prefix).lists[w].contains(use_id));
            }
            self.unlink_use_from_value_list(use_id);
            i += 1;
            proof {
                let next = slots.take(i as int);
                assert(next.drop_last() =~= prefix);
                assert(next.last() == use_id);
            }
        }
        assert(slots.take(len as int) =~= slots);
        let ghost m = *self;
        proof {
            lemma_unlinked_all(e, slots);
        }
        self.nodes.at_mut(node_id).inputs.clear();
        proof {
            assert(self@.values =~= m@.values);
            assert(self@.uses =~= m@.uses);
            assert(self@ =~= g.detached(node_id));
            lemma_detached_valid(g, node_id);
            assert forall|w: int, k: int|
                #![trigger self.lists@[w][k]]
                0 <= w < self.lists@.len() && 0 <= k < self.lists@[w].len() implies self.link_ok(
                w,
                k,
            ) by {
                assert(m.link_ok(w, k));
            }
        }
    }

    /// Redirects every use of `old_value` to `new_value`; says whether any
    /// moved.
    #[verifier::rlimit(40)]
    pub fn replace_all_uses(&mut self, old_value: ValueId, new_value: ValueId) -> (r: bool)
        requires
            old(self).wf(),
            old(self)@.has_value(old_value),
            old(self)@.has_value(new_value),
        ensures
            final(self).wf(),
            old_value == new_value ==> !r && final(self)@ == old(self)@,
            old_value != new_value ==> {
                &&& r == (old(self)@.readers(old_value).len() > 0)
                &&& final(self)@ == old(self)@.redirected_all(
                    old(self)@.readers(old_value),
                    new_value,
                )
                &&& final(self)@.readers(old_value).len() == 0
            },
            final(self)@.nodes == old(self)@.nodes,
            final(self)@.values == old(self)@.values,
            final(self)@.uses.len() == old(self)@.uses.len(),
            forall|u: int|
                #![trigger final(self)@.uses[u]]
                0 <= u < old(self)@.uses.len() ==> final(self)@.uses[u] == (if old(self)@.readers(old_value).contains(UseId(u as u32)) {
                    super::model::UseModel { value: new_value, ..old(self)@.uses[u] }
                } else {
                    old(self)@.uses[u]
                }),
    {
        if old_value == new_value {
            proof {
                assert forall|u: int|
                    #![trigger self@.uses[u]]
                    0 <= u < self@.uses.len() && self@.readers(old_value).contains(
                        UseId(u as u32),
                    ) implies self@.uses[u].value == new_value by {
                    let i = self@.readers(old_value).index_of(UseId(u as u32));
                    assert(self@.lists[old_value.0 as int][i] == UseId(u as u32));
                    assert(self@.reader_ok(old_value.0 as int, i));
                }
            }
            return false;
        }
        let ghost g = self@;
        let ghost us = g.readers(old_value);
        let ghost mut done: int = 0;
        let moved = self.value_first_use_id(old_value).is_some();
        proof {
            assert(us.take(0) =~= Seq::<UseId>::empty());
            assert(us.skip(0) =~= us);
        }
        loop
            invariant
                old_value != new_value,
                g.valid(),
                g.has_value(old_value),
                g.has_value(new_value),
                us == g.readers(old_value),
                0 <= done <= us.len(),
                self.wf(),
                self@ == g.redirected_all(us.take(done), new_value),
                self@.readers(old_value) == us.skip(done),
                self@.nodes == g.nodes,
                self@.values == g.values,
                self@.uses.len() == g.uses.len(),
                forall|u: int|
                    #![trigger self@.uses[u]]
                    0 <= u < g.uses.len() ==> self@.uses[u] == (if us.take(done).contains(
                        UseId(u as u32),
                    ) {
                        super::model::UseModel { value: new_value, ..g.uses[u] }
                    } else {
                        g.uses[u]
                    }),
            ensures
                done == us.len(),
            decreases us.len() - done,
        {
            let ghost before = self@;
            match self.value_first_use_id(old_value) {
                None => {
                    break ;
                },
                Some(use_id) => {
                    proof {
                        assert(us.skip(done)[0] == use_id);
                        assert(use_id == us[done]);
                        assert(before.lists[old_value.0 as int][0] == use_id);
                        assert(before.reader_ok(old_value.0 as int, 0));
                        lemma_redirected_valid(before, use_id, new_value);
                    }
                    self.update_input(use_id, new_value);
                    proof {
                        let next = us.take(done + 1);
                        assert(next.drop_last() =~= us.take(done));
                        assert(next.last() == use_id);
                        let list = before.readers(old_value);
                        assert(list.no_duplicates()) by {
                            assert(before.lists[old_value.0 as int].no_duplicates());
                        }
                        assert(list.index_of(use_id) == 0) by {
                            let k = list.index_of(use_id);
                            assert(list.contains(use_id));
                            assert(list[k] == list[0]);
                        }
                        assert(self@.readers(old_value) =~= us.skip(done + 1));
                        assert forall|u: int|
                            #![trigger self@.uses[u]]
                            0 <= u < g.uses.len() implies self@.uses[u] == (if next.contains(
                            UseId(u as u32),
                        ) {
                            super::model::UseModel { value: new_value, ..g.uses[u] }
                        } else {
                            g.uses[u]
                        }) by {
                            assert(self@.uses[u] == g.redirected_all(next, new_value).uses[u]);
                            assert(before.uses[u] == (if us.take(done).contains(UseId(u as u32)) {
                                super::model::UseModel { value: new_value, ..g.uses[u] }
                            } else {
                                g.uses[u]
                            }));
                            if u == use_id.0 {
                                assert(next[done] == UseId(u as u32));
                                assert(next.contains(UseId(u as u32)));
                            } else {
                                assert(next.contains(UseId(u as u32)) <==> us.take(done).contains(
                                    UseId(u as u32),
                                )) by {
                                    if next.contains(UseId(u as u32)) {
                                        let k = next.index_of(UseId(u as u32));
                                        assert(us.take(done)[k] == UseId(u as u32));
                                    }
                                    if us.take(done).contains(UseId(u as u32)) {
                                        let k = us.take(done).index_of(UseId(u as u32));
                                        assert(next[k] == UseId(u as u32));
                                    }
                                }
                            }
                        }
                        done = done + 1;
                    }
                },
            }
        }
        assert(us.take(done) =~= us);
        moved
    }

    /// Takes out the inputs of `node_id` at the listed positions, all at once.
    /// Positions past the inputs and repeated ones are ignored.
    pub fn remove_node_inputs_batch(&mut self, node_id: NodeId, indices: &[usize])
        requires
            old(self).wf(),
            old(self)@.has_node(node_id),
            !old(self)@.kind(node_id).cacheable(),
        ensures
            final(self).wf(),
            final(self)@ == old(self)@.without_inputs_from(node_id, indices@, 0),
            final(self)@.ins(node_id) == kept_from(old(self)@.ins(node_id), indices@, 0),
            final(self)@.values == old(self)@.values,
            final(self)@.nodes.len() == old(self)@.nodes.len(),
            final(self)@.uses.len() == old(self)@.uses.len(),
            final(self)@.kind(node_id) == old(self)@.kind(node_id),
            forall|m: int|
                0 <= m < old(self)@.nodes.len() && m != node_id.0 ==> #[trigger] final(self)@.nodes[m] == old(self)@.nodes[m],
    {
        let ghost g = self@;
        let ghost s = g.ins(node_id);
        let len = self.nodes.at(node_id).inputs.len();
        assert(g.nodes[node_id.0 as int].inputs.len() <= g.uses.len());
        let mut p: usize = len;
        proof {
            assert(s.take(len as int) + kept_from(s, indices@, len as int) =~= s);
        }
        while p > 0
            invariant
                g.valid(),
                g.has_node(node_id),
                !g.kind(node_id).cacheable(),
                s == g.ins(node_id),
                p <= len == g.slots(node_id).len(),
                len <= u32::MAX,
                self.wf(),
                self@.has_node(node_id),
                self@.kind(node_id) == g.kind(node_id),
                self@ == g.without_inputs_from(node_id, indices@, p as int),
                self@.ins(node_id) == s.take(p as int) + kept_from(s, indices@, p as int),
                self@.values == g.values,
                self@.nodes.len() == g.nodes.len(),
                self@.uses.len() == g.uses.len(),
                forall|m: int|
                    0 <= m < g.nodes.len() && m != node_id.0 ==> #[trigger] self@.nodes[m]
                        == g.nodes[m],
            decreases p,
        {
            p -= 1;
            let mut listed = false;
            let mut k: usize = 0;
            while k < indices.len()
                invariant
                    k <= indices.len(),
                    listed == exists|j: int| 0 <= j < k && #[trigger] indices@[j] == p,
                decreases indices.len() - k,
            {
                if indices[k] == p {
                    listed = true;
                    assert(indices@[k as int] == p);
                }
                k += 1;
            }
            let ghost before = self@;
            if listed {
                proof {
                    assert(before.slots(node_id).len() == before.ins(node_id).len());
                    assert(s.take(p + 1).len() == p + 1);
                    lemma_without_input_valid(before, node_id, p as int);
                    assert(before.ins(node_id).remove(p as int) =~= s.take(p as int) + kept_from(
                        s,
                        indices@,
                        p as int,
                    ));
                }
                let r = self.remove_node_input(node_id, p as u32);
            } else {
                assert(before.ins(node_id) =~= s.take(p as int) + kept_from(s, indices@, p as int));
            }
        }
        assert(s.take(0) + kept_from(s, indices@, 0) =~= kept_from(s, indices@, 0));
    }

    /// The `(node, input index)` pairs that read a value, latest first.
    pub fn value_uses(&self, value_id: ValueId) -> (r: Vec<(NodeId, u32)>)
        requires
            self.wf(),
            self@.has_value(value_id),
        ensures
            r@ == self@.reader_positions(value_id),
            forall|i: int| 0 <= i < r@.len() ==> self@.has_node((#[trigger] r@[i]).0),
    {
        let ghost list = self@.readers(value_id);
        let mut r: Vec<(NodeId, u32)> = Vec::new();
        let mut current = self.values.at(value_id).first_use;
        proof {
            reveal(Graph::chained);
            assert(self.lists@[value_id.0 as int] == list);
        }
        loop
            invariant
                self.wf(),
                self@.has_value(value_id),
                list == self@.readers(value_id),
                r@.len() <= list.len(),
                current == item(list, r@.len() as int),
                r@ == self@.reader_positions(value_id).take(r@.len() as int),
                forall|i: int| 0 <= i < r@.len() ==> self@.has_node((#[trigger] r@[i]).0),
            ensures
                r@.len() == list.len(),
            decreases list.len() - r@.len(),
        {
            match current {
                None => {
                    break ;
                },
                Some(use_id) => {
                    let ghost i = r@.len() as int;
                    proof {
                        reveal(Graph::chained);
                        assert(self.lists@[value_id.0 as int][i] == use_id);
                        assert(self.link_ok(value_id.0 as int, i));
                        assert(self@.uses[use_id.0 as int] == self.uses@[use_id.0 as int].model());
                    }
                    let data = self.uses.at(use_id);
                    r.push((data.node, data.index));
                    current = data.next;
                    assert(r@ =~= self@.reader_positions(value_id).take(r@.len() as int));
                },
            }
        }
        assert(r@ =~= self@.reader_positions(value_id));
        r
    }

    /// Whether exactly one input reads a value.
    pub fn value_has_one_use(&self, value: ValueId) -> (r: bool)
        requires
            self.wf(),
            self@.has_value(value),
        ensures
            r == (self@.readers(value).len() == 1),
    {
        proof {
            reveal(Graph::chained);
            assert(self.lists@[value.0 as int] == self@.readers(value));
        }
        match self.values.at(value).first_use {
            None => false,
            Some(u) => {
                proof {
                    assert(self.lists@[value.0 as int][0] == u);
                    assert(self.link_ok(value.0 as int, 0));
                }
                self.uses.at(u).next.is_none()
            },
        }
    }

    /// The head of the use list of a value.
    pub fn value_first_use_id(&self, value: ValueId) -> (r: Option<UseId>)
        requires
            self.wf(),
            self@.has_value(value),
        ensures
            r == (if self@.readers(value).len() > 0 {
                Some(self@.readers(value)[0])
            } else {
                None
            }),
            r matches Some(u) ==> self@.has_use(u) && self@.attached(u),
    {
        proof {
            reveal(Graph::chained);
            assert(self.lists@[value.0 as int] == self@.readers(value));
            if self@.readers(value).len() > 0 {
                assert(self@.lists[value.0 as int][0] == self@.readers(value)[0]);
                assert(self@.reader_ok(value.0 as int, 0));
            }
        }
        self.values.at(value).first_use
    }

    /// The slot after `use_id` in its use list.
    pub fn next_use(&self, use_id: UseId) -> (r: Option<UseId>)
        requires
            self.wf(),
            self@.has_use(use_id),
            self@.attached(use_id),
        ensures
            r == self@.next_reader(use_id),
            r matches Some(u) ==> self@.has_use(u) && self@.attached(u),
    {
        proof {
            reveal(Graph::chained);
            let d = self@.uses[use_id.0 as int];
            assert(self@.slot_ok(d.node.0 as int, d.index as int)) by {
                assert(self@.nodes[d.node.0 as int].inputs[d.index as int] == use_id);
            }
            let v = d.value.0 as int;
            let i = self@.lists[v].index_of(use_id);
            assert(self.lists@[v][i] == use_id);
            assert(self.link_ok(v, i));
            if i + 1 < self@.lists[v].len() {
                assert(self@.lists[v][i + 1] == self@.lists[v][i + 1]);
                assert(self@.reader_ok(v, i + 1));
            }
        }
        self.uses.at(use_id).next
    }

    /// The node and input index of a slot.
    pub(crate) fn use_position(&self, use_id: UseId) -> (r: (NodeId, u32))
        requires
            self@.has_use(use_id),
        ensures
            r == (self@.uses[use_id.0 as int].node, self@.uses[use_id.0 as int].index),
    {
        let data = self.uses.at(use_id);
        (data.node, data.index)
    }

    /// A cursor at the head of the use list of a value.
    pub fn value_use_cursor<'a>(&'a mut self, value_id: ValueId) -> (r: InputCursor<'a>)
        requires
            old(self).wf(),
            old(self)@.has_value(value_id),
        ensures
            r.wf(),
            *r.graph == *old(self),
            *final(self) == *final(r.graph),
            r.current == (if old(self)@.readers(value_id).len() > 0 {
                Some(old(self)@.readers(value_id)[0])
            } else {
                None
            }),
    {
        let current = self.value_first_use_id(value_id);
        InputCursor { graph: self, current }
    }
}

} // verus!
