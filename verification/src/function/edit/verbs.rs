//! The verbs of an edit.

use super::edit_function::{populated, EditFunction};
use super::model::{culled_upto, phi_positions, shifted, values_at, Edit};
use crate::error::IrError;
use crate::function::func::Function;
use crate::function::side_tables::{ArgClass, Table};
use crate::graph::model::{lemma_detached_valid, lemma_redirected_valid};
use crate::graph::postorder::{led_to, postorder_of, readers_first};
use crate::node::{NodeId, NodeKind, UseId, ValueId, ValueKind};
use vstd::prelude::*;

verus! {

/// The nodes of a set by number.
pub open spec fn lists_set(order: Seq<NodeId>, set: Set<NodeId>) -> bool {
    &&& forall|n: NodeId| #[trigger] order.contains(n) <==> set.contains(n)
    &&& forall|i: int, j: int| 0 <= i < j < order.len() ==> order[i].0 < order[j].0
}

/// `a` is `b` with some elements left out.
pub open spec fn thinned(a: Seq<NodeId>, b: Seq<NodeId>) -> bool {
    exists|at: Seq<int>| #[trigger] thinned_at(a, b, at)
}

/// `a` holds the elements of `b` at the given places.
pub open spec fn thinned_at(a: Seq<NodeId>, b: Seq<NodeId>, at: Seq<int>) -> bool {
    &&& at.len() == a.len()
    &&& forall|i: int| 0 <= i < at.len() ==> 0 <= #[trigger] at[i] < b.len() && a[i] == b[at[i]]
    &&& forall|i: int, j: int| 0 <= i < j < at.len() ==> at[i] < at[j]
}

/// The nodes of a list whose kind passes a test.
pub fn filter_kind<F: Fn(&NodeKind) -> bool>(f: &Function, nodes: &Vec<NodeId>, pred: F) -> (r: Vec<
    NodeId,
>)
    requires
        f.wf(),
        forall|i: int| 0 <= i < nodes@.len() ==> f.g().has_node(#[trigger] nodes@[i]),
        forall|k: &NodeKind| #[trigger] call_requires(pred, (k,)),
    ensures
        thinned(r@, nodes@),
        exists|at: Seq<int>| #[trigger]
            thinned_at(r@, nodes@, at) && forall|k: int|
                0 <= k < nodes@.len() && !at.contains(k) ==> call_ensures(
                    pred,
                    (&f.g().kind(#[trigger] nodes@[k]),),
                    false,
                ),
        forall|n: NodeId| #[trigger]
            r@.contains(n) ==> call_ensures(pred, (&f.g().kind(n),), true),
        forall|n: NodeId| #[trigger]
            nodes@.contains(n) ==> r@.contains(n) || call_ensures(
                pred,
                (&f.g().kind(n),),
                false,
            ),
{
    let mut r: Vec<NodeId> = Vec::new();
    let ghost mut at: Seq<int> = Seq::empty();
    let mut i: usize = 0;
    while i < nodes.len()
        invariant
            f.wf(),
            i <= nodes.len(),
            forall|k: int| 0 <= k < nodes@.len() ==> f.g().has_node(#[trigger] nodes@[k]),
            forall|k: &NodeKind| #[trigger] call_requires(pred, (k,)),
            thinned_at(r@, nodes@, at),
            forall|k: int| 0 <= k < at.len() ==> #[trigger] at[k] < i,
            forall|k: int|
                0 <= k < i && !at.contains(k) ==> call_ensures(
                    pred,
                    (&f.g().kind(#[trigger] nodes@[k]),),
                    false,
                ),
            forall|k: int|
                0 <= k < r@.len() ==> call_ensures(pred, (&f.g().kind(#[trigger] r@[k]),), true),
            forall|k: int|
                0 <= k < i ==> r@.contains(#[trigger] nodes@[k]) || call_ensures(
                    pred,
                    (&f.g().kind(nodes@[k]),),
                    false,
                ),
        decreases nodes.len() - i,
    {
        let node = nodes[i];
        let ghost before = r@;
        let ghost picked = at;
        let kind = f.node_kind(node);
        if pred(kind) {
            r.push(node);
            proof {
                at = at.push(i as int);
                assert(r@[before.len() as int] == node);
            }
        }
        proof {
            assert forall|k: int| 0 <= k < i + 1 implies r@.contains(#[trigger] nodes@[k])
                || call_ensures(pred, (&f.g().kind(nodes@[k]),), false) by {
                if k < i && before.contains(nodes@[k]) {
                    let x = before.index_of(nodes@[k]);
                    assert(r@[x] == nodes@[k]);
                }
            }
            assert forall|k: int| 0 <= k < i + 1 && !at.contains(k) implies call_ensures(
                pred,
                (&f.g().kind(#[trigger] nodes@[k]),),
                false,
            ) by {
                if picked.contains(k) {
                    let x = picked.index_of(k);
                    assert(at[x] == k);
                }
                if k == i && at.len() > picked.len() {
                    assert(at[picked.len() as int] == k);
                }
            }
        }
        i += 1;
    }
    proof {
        assert forall|n: NodeId| #[trigger] r@.contains(n) implies call_ensures(
            pred,
            (&f.g().kind(n),),
            true,
        ) by {
            let x = r@.index_of(n);
            assert(r@[x] == n);
        }
        assert forall|n: NodeId| #[trigger] nodes@.contains(n) implies r@.contains(n)
            || call_ensures(pred, (&f.g().kind(n),), false) by {
            let x = nodes@.index_of(n);
            assert(nodes@[x] == n);
        }
    }
    r
}

impl<'g> EditFunction<'g> {
    /// The function, to be changed in place. The sets of live and root nodes
    /// do not follow such a change; `resync_live_set` brings them up to date.
    pub fn function_mut(&mut self) -> (r: &mut Function)
        ensures
            *r == old(self).f(),
            final(self).f() == *final(r),
            final(self).marks() == old(self).marks(),
            *final(final(self).function) == *final(old(self).function),
    {
        self.function
    }

    /// The live nodes that the roots lead to, each after its readers, but for
    /// one that leads back to it.
    pub fn postorder(&self) -> (r: Vec<NodeId>)
        requires
            self.wf(),
        ensures
            exists|roots: Seq<NodeId>| #[trigger]
                lists_set(roots, self.marks().roots) && r@ == postorder_of(
                    self.f().g(),
                    self.marks().live,
                    roots,
                ) && forall|n: NodeId| #[trigger]
                    r@.contains(n) <==> led_to(self.f().g(), self.marks().live, roots, n),
            r@.no_duplicates(),
            readers_first(self.f().g(), self.marks().live, r@),
            forall|i: int| 0 <= i < r@.len() ==> self.f().g().has_node(#[trigger] r@[i]),
    {
        let live = self.live_snapshot();
        let roots = self.roots_snapshot().to_vec();
        proof {
            self.f().lemma_wf();
            self.lemma_wf();
            assert forall|i: int| 0 <= i < roots@.len() implies self.f().g().has_node(
                #[trigger] roots@[i],
            ) by {
                assert(roots@.contains(roots@[i]));
            }
            assert(lists_set(roots@, self.marks().roots));
        }
        self.function.graph().postorder(Some(&live), roots.as_slice())
    }

    /// The reverse of the postorder: a producer comes before its readers.
    pub fn reverse_postorder(&self) -> (r: Vec<NodeId>)
        requires
            self.wf(),
        ensures
            exists|roots: Seq<NodeId>| #[trigger]
                lists_set(roots, self.marks().roots) && r@ == postorder_of(
                    self.f().g(),
                    self.marks().live,
                    roots,
                ).reverse(),
            forall|i: int| 0 <= i < r@.len() ==> self.f().g().has_node(#[trigger] r@[i]),
    {
        let post = self.postorder();
        let mut r: Vec<NodeId> = Vec::new();
        let mut k: usize = post.len();
        while k > 0
            invariant
                k <= post.len(),
                r@.len() == post@.len() - k,
                forall|i: int| 0 <= i < r@.len() ==> #[trigger] r@[i] == post@[post@.len() - 1 - i],
            decreases k,
        {
            k -= 1;
            r.push(post[k]);
        }
        assert(r@ =~= post@.reverse());
        r
    }

    /// The nodes of the reverse postorder whose kind passes a test.
    pub fn reverse_postorder_filter<F: Fn(&NodeKind) -> bool>(&self, pred: F) -> (r: Vec<NodeId>)
        requires
            self.wf(),
            forall|k: &NodeKind| #[trigger] call_requires(pred, (k,)),
        ensures
            exists|roots: Seq<NodeId>| #[trigger]
                lists_set(roots, self.marks().roots) && {
                    let all = postorder_of(self.f().g(), self.marks().live, roots).reverse();
                    &&& thinned(r@, all)
                    &&& forall|n: NodeId| #[trigger]
                        all.contains(n) ==> r@.contains(n) || call_ensures(
                            pred,
                            (&self.f().g().kind(n),),
                            false,
                        )
                },
            forall|n: NodeId| #[trigger]
                r@.contains(n) ==> call_ensures(pred, (&self.f().g().kind(n),), true),
    {
        let all = self.reverse_postorder();
        proof {
            self.lemma_wf();
        }
        filter_kind(self.function, &all, pred)
    }

    /// The nodes of the postorder whose kind passes a test.
    pub fn postorder_filter<F: Fn(&NodeKind) -> bool>(&self, pred: F) -> (r: Vec<NodeId>)
        requires
            self.wf(),
            forall|k: &NodeKind| #[trigger] call_requires(pred, (k,)),
        ensures
            exists|roots: Seq<NodeId>| #[trigger]
                lists_set(roots, self.marks().roots) && {
                    let all = postorder_of(self.f().g(), self.marks().live, roots);
                    &&& thinned(r@, all)
                    &&& forall|n: NodeId| #[trigger]
                        all.contains(n) ==> r@.contains(n) || call_ensures(
                            pred,
                            (&self.f().g().kind(n),),
                            false,
                        )
                },
            forall|n: NodeId| #[trigger]
                r@.contains(n) ==> call_ensures(pred, (&self.f().g().kind(n),), true),
    {
        let all = self.postorder();
        proof {
            self.lemma_wf();
        }
        filter_kind(self.function, &all, pred)
    }

    /// The live nodes whose kind passes a test, by number.
    pub fn live_of_kind<F: Fn(&NodeKind) -> bool>(&self, pred: F) -> (r: Vec<NodeId>)
        requires
            self.wf(),
            forall|k: &NodeKind| #[trigger] call_requires(pred, (k,)),
        ensures
            forall|n: NodeId| #[trigger]
                r@.contains(n) ==> self.marks().live.contains(n) && call_ensures(
                    pred,
                    (&self.f().g().kind(n),),
                    true,
                ),
            forall|n: NodeId| #[trigger]
                self.marks().live.contains(n) ==> r@.contains(n) || call_ensures(
                    pred,
                    (&self.f().g().kind(n),),
                    false,
                ),
            forall|i: int, j: int| 0 <= i < j < r@.len() ==> r@[i].0 < r@[j].0,
    {
        let all = self.live_snapshot().to_vec();
        proof {
            self.lemma_wf();
            assert forall|i: int| 0 <= i < all@.len() implies self.f().g().has_node(
                #[trigger] all@[i],
            ) by {
                assert(all@.contains(all@[i]));
            }
        }
        let r = filter_kind(self.function, &all, pred);
        proof {
            let at = choose|at: Seq<int>| #[trigger] thinned_at(r@, all@, at);
            assert forall|i: int, j: int| 0 <= i < j < r@.len() implies r@[i].0 < r@[j].0 by {
                assert(at[i] < at[j]);
                assert(all@[at[i]].0 < all@[at[j]].0);
            }
            assert forall|n: NodeId| #[trigger] r@.contains(n) implies self.marks().live.contains(
                n,
            ) by {
                let x = r@.index_of(n);
                assert(all@[at[x]] == n);
                assert(all@.contains(n));
            }
            assert forall|n: NodeId| #[trigger] self.marks().live.contains(n) implies r@.contains(n)
                || call_ensures(pred, (&self.f().g().kind(n),), false) by {
                assert(all@.contains(n));
            }
        }
        r
    }

    /// Redirects one input.
    pub fn update_input(&mut self, input_id: UseId, output_id: ValueId)
        requires
            old(self).wf(),
            old(self).f().g().has_use(input_id),
            old(self).f().g().attached(input_id),
            old(self).f().g().has_value(output_id),
        ensures
            final(self).wf(),
            final(self).edit() == old(self).edit().update_input(input_id, output_id),
            final(self).same_rest(old(self)),
            *final(final(self).function) == *final(old(self).function),
    {
        let ghost f0 = self.f();
        proof {
            f0.lemma_wf();
            self.lemma_wf();
            self.lemma_same_rest_refl();
        }
        let displaced = self.function.graph().input_output_id(input_id);
        if displaced == output_id {
            return ;
        }
        let consumer = self.function.graph().node_of_use(input_id);
        self.will_detach_value(displaced);
        self.will_attach_value(output_id);
        proof {
            lemma_redirected_valid(f0.g(), input_id, output_id);
        }
        self.redirect(input_id, output_id);
        let ghost mid = *self;
        self.enqueue_for_recanon(consumer);
        proof {
            Self::lemma_same_rest_trans(self, &mid, old(self));
        }
    }

    /// Redirects every use of a value. Says whether there was any.
    pub fn replace_all_uses(&mut self, old_value: ValueId, new_value: ValueId) -> (r: Result<
        bool,
        IrError,
    >)
        requires
            old(self).wf(),
            old(self).f().g().has_value(old_value),
            old(self).f().g().has_value(new_value),
        ensures
            final(self).wf(),
            final(self).edit() == old(self).edit().replace_all_uses(old_value, new_value),
            r == Ok::<bool, IrError>(
                old_value != new_value && old(self).f().g().readers(old_value).len() > 0,
            ),
            final(self).f().g().nodes == old(self).f().g().nodes,
            final(self).f().g().values == old(self).f().g().values,
            old_value != new_value ==> final(self).f().g().readers(old_value).len() == 0,
            final(self).same_rest(old(self)),
            *final(final(self).function) == *final(old(self).function),
    {
        let ghost f0 = self.f();
        let ghost g = f0.g();
        let ghost e0 = self.edit();
        proof {
            f0.lemma_wf();
            self.lemma_wf();
            self.lemma_same_rest_refl();
        }
        if old_value == new_value {
            return Ok(false);
        }
        let readers = self.function.graph().value_uses(old_value);
        if readers.len() == 0 {
            return Ok(false);
        }
        self.will_attach_value(new_value);
        let ghost m1 = self.marks();
        self.redirect_all(old_value, new_value);
        let ghost mid = *self;
        proof {
            self.lemma_same_rest_refl();
        }
        let mut i: usize = 0;
        while i < readers.len()
            invariant
                self.wf(),
                self.f() == mid.f(),
                mid.f().g().nodes == g.nodes,
                self.same_rest(&mid),
                *final(self.function) == *final(old(self).function),
                i <= readers.len(),
                readers@ == g.reader_positions(old_value),
                forall|k: int| 0 <= k < readers@.len() ==> g.has_node((#[trigger] readers@[k]).0),
                self.marks() == m1.flag_readers(readers@, i as int),
            decreases readers.len() - i,
        {
            let ghost at = *self;
            self.enqueue_for_recanon(readers[i].0);
            proof {
                Self::lemma_same_rest_trans(self, &at, &mid);
            }
            i += 1;
        }
        proof {
            Self::lemma_same_rest_trans(self, &mid, old(self));
        }
        Ok(true)
    }

    /// Appends an input to a node; fails where the node is shared by
    /// structure.
    pub fn add_node_input(&mut self, node: NodeId, output_id: ValueId) -> (r: Result<(), IrError>)
        requires
            old(self).wf(),
            old(self).f().g().has_node(node),
            old(self).f().g().has_value(output_id),
            old(self).f().g().has_room(0, 1, 0),
        ensures
            final(self).wf(),
            old(self).f().g().kind(node).cacheable() ==> r == Err::<(), IrError>(
                IrError::AddToCacheable { node },
            ) && final(self).edit() == old(self).edit(),
            !old(self).f().g().kind(node).cacheable() ==> r is Ok && final(self).edit()
                == old(self).edit().add_input(node, output_id),
            final(self).same_rest(old(self)),
            *final(final(self).function) == *final(old(self).function),
    {
        proof {
            self.f().lemma_wf();
            self.lemma_same_rest_refl();
        }
        if self.function.node_kind(node).is_cacheable() {
            return Err(IrError::AddToCacheable { node });
        }
        let was_input_less = self.function.node_inputs(node).is_empty();
        self.will_attach_value(output_id);
        self.append(node, output_id, was_input_less);
        Ok(())
    }

    /// Adds a carrier of the `index`-th integer argument.
    pub fn register_arg_value(&mut self, index: u32, value: ValueId)
        requires
            old(self).wf(),
        ensures
            final(self).wf(),
            final(self).f().g() == old(self).f().g(),
            final(self).f().entry_node() == old(self).f().entry_node(),
            final(self).f().same_payloads(&old(self).f()),
            final(self).marks() == old(self).marks(),
            final(self).waiting() == old(self).waiting(),
            final(self).f().tables().same_except(&old(self).f().tables(), Table::Args),
            forall|c: ArgClass, i: u32| #[trigger]
                final(self).f().tables().carriers(c, i) == (if c == ArgClass::Integer && i
                    == index {
                    old(self).f().tables().carriers(c, i).push(value)
                } else {
                    old(self).f().tables().carriers(c, i)
                }),
            *final(final(self).function) == *final(old(self).function),
    {
        self.function.register_arg_value(index, value);
    }

    /// Adds the fingerprint of the producer of one value to that of another.
    pub fn absorb_fingerprint(&mut self, into_value: ValueId, from_value: ValueId)
        requires
            old(self).wf(),
            old(self).f().g().has_value(into_value),
            old(self).f().g().has_value(from_value),
        ensures
            final(self).wf(),
            final(self).edit() == old(self).edit().absorb(
                old(self).f().g().producer(into_value),
                old(self).f().g().producer(from_value),
            ),
            final(self).same_rest(old(self)),
            *final(final(self).function) == *final(old(self).function),
    {
        let into = self.function.producer(into_value);
        let from = self.function.producer(from_value);
        self.absorb(into, from);
    }

    /// Redirects every use of a value; the new producer takes over the
    /// fingerprint of the old one. Says whether there was any use.
    pub fn replace_value(&mut self, old_value: ValueId, new_value: ValueId) -> (r: Result<
        bool,
        IrError,
    >)
        requires
            old(self).wf(),
            old(self).f().g().has_value(old_value),
            old(self).f().g().has_value(new_value),
        ensures
            final(self).wf(),
            final(self).edit() == old(self).edit().replace_value(old_value, new_value),
            r == Ok::<bool, IrError>(
                old_value != new_value && old(self).f().g().readers(old_value).len() > 0,
            ),
            final(self).f().g().nodes == old(self).f().g().nodes,
            final(self).f().g().values == old(self).f().g().values,
            old_value != new_value ==> final(self).f().g().readers(old_value).len() == 0,
            final(self).same_rest(old(self)),
            *final(final(self).function) == *final(old(self).function),
    {
        proof {
            self.f().lemma_wf();
            assert(self.f().g().value_ok(old_value.0 as int));
        }
        let into = self.function.producer(new_value);
        let from = self.function.producer(old_value);
        self.absorb(into, from);
        let ghost one = *self;
        let r = self.replace_all_uses(old_value, new_value);
        let ghost two = *self;
        self.enqueue_killed_def_node(from);
        proof {
            Self::lemma_same_rest_trans(&two, &one, old(self));
            Self::lemma_same_rest_trans(self, &two, old(self));
        }
        r
    }

    /// Redirects one input; where that was the last use of its value, the new
    /// producer takes over the fingerprint of the old one.
    pub fn redirect_input(&mut self, input_id: UseId, new_value: ValueId)
        requires
            old(self).wf(),
            old(self).f().g().has_use(input_id),
            old(self).f().g().attached(input_id),
            old(self).f().g().has_value(new_value),
        ensures
            final(self).wf(),
            final(self).edit() == old(self).edit().redirect_input(input_id, new_value),
            final(self).same_rest(old(self)),
            *final(final(self).function) == *final(old(self).function),
    {
        let ghost g = self.f().g();
        proof {
            self.f().lemma_wf();
            lemma_redirected_valid(g, input_id, new_value);
        }
        let displaced = self.function.graph().input_output_id(input_id);
        let only_use = self.function.graph().value_has_one_use(displaced);
        self.update_input(input_id, new_value);
        let ghost mid = *self;
        if only_use {
            let into = self.function.producer(new_value);
            let from = self.function.producer(displaced);
            self.absorb(into, from);
            proof {
                Self::lemma_same_rest_trans(self, &mid, old(self));
            }
        }
    }

    /// Creates a node, or finds the one of its structure.
    pub fn create_node(
        &mut self,
        kind: NodeKind,
        inputs: &[ValueId],
        output_kinds: &[ValueKind],
    ) -> (r: NodeId)
        requires
            old(self).wf(),
            forall|i: int|
                0 <= i < inputs@.len() ==> old(self).f().g().has_value(#[trigger] inputs@[i]),
            old(self).f().g().has_room(1, inputs@.len() as int, output_kinds@.len() as int),
        ensures
            final(self).wf(),
            r == old(self).f().g().created_id(kind, inputs@, output_kinds@),
            final(self).edit() == old(self).edit().create(
                kind,
                inputs@,
                output_kinds@,
                Seq::<NodeId>::empty(),
            ),
            final(self).same_rest(old(self)),
            *final(final(self).function) == *final(old(self).function),
    {
        let none: Vec<NodeId> = Vec::new();
        assert(none@ =~= Seq::<NodeId>::empty());
        self.create_node_attributed(kind, inputs, output_kinds, none.as_slice())
    }

    /// Creates a node, or finds the one of its structure, and adds the
    /// fingerprints of all contributors to it.
    pub fn create_node_attributed(
        &mut self,
        kind: NodeKind,
        inputs: &[ValueId],
        output_kinds: &[ValueKind],
        contributors: &[NodeId],
    ) -> (r: NodeId)
        requires
            old(self).wf(),
            forall|i: int|
                0 <= i < inputs@.len() ==> old(self).f().g().has_value(#[trigger] inputs@[i]),
            old(self).f().g().has_room(1, inputs@.len() as int, output_kinds@.len() as int),
        ensures
            final(self).wf(),
            r == old(self).f().g().created_id(kind, inputs@, output_kinds@),
            final(self).edit() == old(self).edit().create(
                kind,
                inputs@,
                output_kinds@,
                contributors@,
            ),
            final(self).same_rest(old(self)),
            *final(final(self).function) == *final(old(self).function),
    {
        let ghost f0 = self.f();
        let ghost g = f0.g();
        let ghost m0 = self.marks();
        proof {
            self.lemma_same_rest_refl();
        }
        let mut i: usize = 0;
        while i < inputs.len()
            invariant
                self.wf(),
                self.f() == f0,
                g == f0.g(),
                self.same_rest(old(self)),
                *final(self.function) == *final(old(self).function),
                i <= inputs.len(),
                forall|k: int| 0 <= k < inputs@.len() ==> g.has_value(#[trigger] inputs@[k]),
                self.marks() == m0.attaching_all(g, inputs@, i as int),
            decreases inputs.len() - i,
        {
            self.will_attach_value(inputs[i]);
            i += 1;
        }
        self.create_now(kind, inputs, output_kinds, contributors)
    }

    /// Takes the inputs at the listed positions out of a node.
    fn remove_node_inputs_batch(&mut self, node: NodeId, indices: &Vec<usize>)
        requires
            old(self).wf(),
            old(self).f().g().has_node(node),
            !old(self).f().g().kind(node).cacheable(),
        ensures
            final(self).wf(),
            final(self).edit() == old(self).edit().remove_inputs(node, indices@),
            final(self).f().g().values == old(self).f().g().values,
            final(self).f().g().nodes.len() == old(self).f().g().nodes.len(),
            final(self).f().g().kind(node) == old(self).f().g().kind(node),
            forall|m: int|
                0 <= m < old(self).f().g().nodes.len() && m != node.0 ==> #[trigger] final(self).f().g().nodes[m] == old(self).f().g().nodes[m],
            final(self).same_rest(old(self)),
            *final(final(self).function) == *final(old(self).function),
    {
        let ghost f0 = self.f();
        let ghost g = f0.g();
        proof {
            f0.lemma_wf();
        }
        let inputs = self.function.node_inputs(node).iter();
        let mut displaced: Vec<ValueId> = Vec::new();
        let mut i: usize = 0;
        while i < indices.len()
            invariant
                i <= indices.len(),
                inputs@ == g.ins(node),
                forall|k: int| 0 <= k < inputs@.len() ==> g.has_value(#[trigger] inputs@[k]),
                displaced@ == values_at(inputs@, indices@, i as int),
                forall|k: int| 0 <= k < displaced@.len() ==> g.has_value(#[trigger] displaced@[k]),
            decreases indices.len() - i,
        {
            if indices[i] < inputs.len() {
                displaced.push(inputs[indices[i]]);
            }
            i += 1;
        }
        self.take_out(node, indices);
        let ghost mid = *self;
        self.enqueue_orphaned_producers(&displaced);
        proof {
            Self::lemma_same_rest_trans(self, &mid, old(self));
        }
    }

    /// Takes predecessors out of a region, and with each the value that every
    /// phi over the region takes from it. The positions may come in any order,
    /// and more than once; those past the inputs are passed over.
    pub fn remove_region_predecessors(&mut self, region: NodeId, pred_indices: &[u32]) -> (r: Result<
        (),
        IrError,
    >)
        requires
            old(self).wf(),
            old(self).f().g().has_node(region),
            old(self).f().g().kind(region) is Region,
            forall|i: int|
                0 <= i < phi_positions(old(self).f().g(), region).len() ==> !old(self).f().g().kind((#[trigger] phi_positions(old(self).f().g(), region)[i]).0).cacheable(),
            forall|i: int| 0 <= i < pred_indices@.len() ==> #[trigger] pred_indices@[i] < u32::MAX,
        ensures
            r is Ok,
            final(self).wf(),
            final(self).edit() == old(self).edit().remove_predecessors(region, pred_indices@),
            final(self).same_rest(old(self)),
            *final(final(self).function) == *final(old(self).function),
    {
        let ghost f0 = self.f();
        let ghost g = f0.g();
        let ghost e0 = self.edit();
        proof {
            f0.lemma_wf();
            self.lemma_same_rest_refl();
        }
        if pred_indices.len() == 0 {
            return Ok(());
        }
        let outputs = self.function.node_outputs(region);
        let phis: Vec<(NodeId, u32)> = if outputs.len() >= 2 {
            self.function.graph().value_uses(outputs[1])
        } else {
            Vec::new()
        };
        assert(phis@ =~= phi_positions(g, region));
        let mut here: Vec<usize> = Vec::new();
        let mut over: Vec<usize> = Vec::new();
        let mut i: usize = 0;
        while i < pred_indices.len()
            invariant
                i <= pred_indices.len(),
                forall|k: int| 0 <= k < pred_indices@.len() ==> #[trigger] pred_indices@[k] < u32::MAX,
                here@.len() == i,
                over@.len() == i,
                forall|k: int| 0 <= k < i ==> #[trigger] here@[k] == pred_indices@[k],
                forall|k: int| 0 <= k < i ==> #[trigger] over@[k] == pred_indices@[k] + 1,
            decreases pred_indices.len() - i,
        {
            here.push(pred_indices[i] as usize);
            over.push(pred_indices[i] as usize + 1);
            i += 1;
        }
        assert(here@ =~= shifted(pred_indices@, 0));
        assert(over@ =~= shifted(pred_indices@, 1));
        let mut j: usize = 0;
        while j < phis.len()
            invariant
                self.wf(),
                j <= phis.len(),
                phis@ == phi_positions(g, region),
                forall|k: int| 0 <= k < phis@.len() ==> g.has_node((#[trigger] phis@[k]).0),
                forall|k: int|
                    0 <= k < phis@.len() ==> !g.kind((#[trigger] phis@[k]).0).cacheable(),
                self.edit() == e0.remove_inputs_of(phis@, over@, j as int),
                self.f().g().nodes.len() == g.nodes.len(),
                forall|n: NodeId| g.has_node(n) ==> #[trigger] self.f().g().kind(n) == g.kind(n),
                self.same_rest(old(self)),
                *final(self.function) == *final(old(self).function),
            decreases phis.len() - j,
        {
            let ghost at = *self;
            let node = phis[j].0;
            assert(self.f().g().kind(node) == g.kind(node));
            self.remove_node_inputs_batch(node, &over);
            proof {
                Self::lemma_same_rest_trans(self, &at, old(self));
                assert forall|n: NodeId| g.has_node(n) implies #[trigger] self.f().g().kind(n)
                    == g.kind(n) by {
                    assert(at.f().g().kind(n) == g.kind(n));
                    if n.0 != node.0 {
                        assert(self.f().g().nodes[n.0 as int] == at.f().g().nodes[n.0 as int]);
                    } else {
                        assert(n == node);
                    }
                }
            }
            j += 1;
        }
        let ghost at = *self;
        assert(self.f().g().kind(region) == g.kind(region));
        self.remove_node_inputs_batch(region, &here);
        proof {
            Self::lemma_same_rest_trans(self, &at, old(self));
        }
        Ok(())
    }

    /// Kills every node outside the live set that the roots lead to, so that
    /// dead readers of live values are found.
    pub fn cull_dead(&mut self)
        requires
            old(self).wf(),
        ensures
            final(self).wf(),
            exists|roots: Seq<NodeId>| #[trigger]
                lists_set(roots, old(self).marks().roots) && {
                    let order = postorder_of(old(self).f().g(), Set::full(), roots);
                    final(self).edit() == culled_upto(old(self).edit(), order, order.len() as int)
                },
            final(self).same_rest(old(self)),
            *final(final(self).function) == *final(old(self).function),
    {
        let ghost f0 = self.f();
        let ghost g = f0.g();
        let ghost e0 = self.edit();
        let roots = self.roots_snapshot().to_vec();
        proof {
            f0.lemma_wf();
            self.lemma_wf();
            self.lemma_same_rest_refl();
            assert forall|i: int| 0 <= i < roots@.len() implies g.has_node(#[trigger] roots@[i]) by {
                assert(roots@.contains(roots@[i]));
            }
            assert(lists_set(roots@, self.marks().roots));
        }
        let order = self.function.graph().postorder(None, roots.as_slice());
        let mut i: usize = 0;
        while i < order.len()
            invariant
                self.wf(),
                i <= order.len(),
                forall|k: int| 0 <= k < order@.len() ==> g.has_node(#[trigger] order@[k]),
                self.f().g().nodes.len() == g.nodes.len(),
                self.edit() == culled_upto(e0, order@, i as int),
                self.same_rest(old(self)),
                *final(self.function) == *final(old(self).function),
            decreases order.len() - i,
        {
            let node = order[i];
            let ghost at = *self;
            if !self.is_live(node) {
                proof {
                    self.lemma_wf();
                    self.f().lemma_wf();
                    lemma_detached_valid(self.f().g(), node);
                }
                self.kill_node(node);
                proof {
                    Self::lemma_same_rest_trans(self, &at, old(self));
                }
            }
            i += 1;
        }
    }

    /// Takes stock anew: what can be reached from the entry is live, and the
    /// rest is killed as far as the roots lead to it.
    pub fn resync_live_set(&mut self)
        requires
            old(self).f().wf(),
        ensures
            final(self).wf(),
            exists|roots: Seq<NodeId>| #[trigger]
                lists_set(roots, populated(&old(self).f()).roots) && {
                    let order = postorder_of(old(self).f().g(), Set::full(), roots);
                    let fresh = Edit { marks: populated(&old(self).f()), ..old(self).edit() };
                    final(self).edit() == culled_upto(fresh, order, order.len() as int)
                },
            final(self).same_rest(old(self)),
            *final(final(self).function) == *final(old(self).function),
    {
        proof {
            self.lemma_same_rest_refl();
        }
        self.repopulate();
        let ghost mid = *self;
        self.cull_dead();
        proof {
            Self::lemma_same_rest_trans(self, &mid, old(self));
        }
    }
}

} // verus!
