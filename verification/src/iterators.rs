//! Views over the inputs of a node and over the uses of a value.

use crate::error::IrError;
use crate::graph::model::GraphModel;
use crate::graph::Graph;
use crate::node::{NodeId, UseId, ValueId};
use vstd::prelude::*;

verus! {

/// The values a node reads, in slot order.
#[derive(Clone, Copy)]
pub struct Inputs<'a> {
    pub graph: &'a Graph,
    pub use_list: &'a [UseId],
}

impl<'a> View for Inputs<'a> {
    type V = Seq<ValueId>;

    open spec fn view(&self) -> Seq<ValueId> {
        Seq::new(
            self.use_list@.len(),
            |i: int| self.graph@.uses[self.use_list@[i].0 as int].value,
        )
    }
}

impl<'a> Inputs<'a> {
    /// Every slot of the list is a slot of the graph.
    pub open spec fn wf(&self) -> bool {
        &&& self.graph.wf()
        &&& forall|i: int|
            0 <= i < self.use_list@.len() ==> self.graph@.has_use(#[trigger] self.use_list@[i])
    }

    pub fn len(&self) -> (r: usize)
        ensures
            r == self@.len(),
    {
        self.use_list.len()
    }

    pub fn is_empty(&self) -> (r: bool)
        ensures
            r == (self@.len() == 0),
    {
        self.use_list.len() == 0
    }

    /// The value the `index`-th input reads.
    pub fn get(&self, index: usize) -> (r: Option<ValueId>)
        requires
            self.wf(),
        ensures
            r == (if index < self@.len() {
                Some(self@[index as int])
            } else {
                None
            }),
            r matches Some(v) ==> self.graph@.has_value(v),
    {
        if index < self.use_list.len() {
            proof {
                self.graph.lemma_wf_valid();
            }
            Some(self.graph.input_output_id(self.use_list[index]))
        } else {
            None
        }
    }

    /// The value the `index`-th input reads; `index` must be in range.
    pub fn at(&self, index: usize) -> (r: ValueId)
        requires
            self.wf(),
            index < self@.len(),
        ensures
            r == self@[index as int],
            self.graph@.has_value(r),
    {
        proof {
            self.graph.lemma_wf_valid();
        }
        self.graph.input_output_id(self.use_list[index])
    }

    /// The values in order.
    pub fn iter(&self) -> (r: Vec<ValueId>)
        requires
            self.wf(),
        ensures
            r@ == self@,
            forall|i: int| 0 <= i < r@.len() ==> self.graph@.has_value(#[trigger] r@[i]),
    {
        let mut r: Vec<ValueId> = Vec::new();
        let mut i: usize = 0;
        while i < self.len()
            invariant
                self.wf(),
                i <= self@.len(),
                r@ == self@.take(i as int),
                forall|k: int| 0 <= k < r@.len() ==> self.graph@.has_value(#[trigger] r@[k]),
            decreases self@.len() - i,
        {
            let v = self.at(i);
            r.push(v);
            i += 1;
            assert(r@ =~= self@.take(i as int));
        }
        assert(self@.take(i as int) =~= self@);
        r
    }

    /// A position at the first value.
    pub fn into_iter(self) -> (r: InputIter<'a>)
        requires
            self.wf(),
        ensures
            r.wf(),
            r.inputs@ == self@,
            r.next_index == 0,
    {
        InputIter { inputs: self, next_index: 0 }
    }
}

/// A position among the values of an [`Inputs`].
#[derive(Clone, Copy)]
pub struct InputIter<'a> {
    pub inputs: Inputs<'a>,
    pub next_index: usize,
}

impl<'a> InputIter<'a> {
    pub open spec fn wf(&self) -> bool {
        self.inputs.wf() && self.next_index <= self.inputs@.len()
    }

    /// Yields the value at the position and moves on.
    pub fn next(&mut self) -> (r: Option<ValueId>)
        requires
            old(self).wf(),
        ensures
            final(self).wf(),
            final(self).inputs == old(self).inputs,
            old(self).next_index == old(self).inputs@.len() ==> r is None
                && final(self).next_index == old(self).next_index,
            old(self).next_index < old(self).inputs@.len() ==> r
                == Some(old(self).inputs@[old(self).next_index as int])
                && final(self).next_index == old(self).next_index + 1,
    {
        if self.next_index < self.inputs.len() {
            let v = self.inputs.at(self.next_index);
            self.next_index = self.next_index + 1;
            Some(v)
        } else {
            None
        }
    }

    /// How many values are left, as a lower and an upper bound.
    pub fn size_hint(&self) -> (r: (usize, Option<usize>))
        requires
            self.wf(),
        ensures
            r.0 == self.inputs@.len() - self.next_index,
            r.1 == Some(r.0),
    {
        let left = self.inputs.len() - self.next_index;
        (left, Some(left))
    }
}

/// A position in the use list of a value, to change the list in place.
pub struct InputCursor<'a> {
    pub graph: &'a mut Graph,
    pub current: Option<UseId>,
}

impl<'a> InputCursor<'a> {
    /// The graph the cursor is in.
    pub open spec fn model(&self) -> GraphModel {
        (*self.graph)@
    }

    /// The slot under the cursor is an input of a node.
    pub open spec fn wf(&self) -> bool {
        &&& (*self.graph).wf()
        &&& self.current matches Some(u) ==> (*self.graph)@.has_use(u) && (*self.graph)@.attached(u)
    }

    /// The node and input index of the slot under the cursor.
    pub fn current(&self) -> (r: Option<(NodeId, u32)>)
        requires
            self.wf(),
        ensures
            r == (match self.current {
                Some(u) => Some(
                    (
                        self.model().uses[u.0 as int].node,
                        self.model().uses[u.0 as int].index,
                    ),
                ),
                None => None,
            }),
    {
        match self.current {
            Some(u) => Some(self.graph.use_position(u)),
            None => None,
        }
    }

    /// Moves on to the next slot of the list.
    fn move_next(&mut self)
        requires
            old(self).wf(),
        ensures
            final(self).wf(),
            *final(self).graph == *old(self).graph,
            *final(final(self).graph) == *final(old(self).graph),
            final(self).current == (match old(self).current {
                Some(u) => (*old(self).graph)@.next_reader(u),
                None => None,
            }),
    {
        match self.current {
            Some(u) => {
                self.current = self.graph.next_use(u);
            },
            None => {},
        }
    }

    /// Redirects the slot under the cursor to `new_value`, and moves on to the
    /// slot that came after it. Fails past the end of the list.
    pub fn replace_current_with(&mut self, new_value: ValueId) -> (r: Result<(), IrError>)
        requires
            old(self).wf(),
            (*old(self).graph)@.has_value(new_value),
        ensures
            final(self).wf(),
            *final(final(self).graph) == *final(old(self).graph),
            match old(self).current {
                Some(u) => {
                    &&& r is Ok
                    &&& (*final(self).graph)@ == (*old(self).graph)@.redirected(u, new_value)
                    &&& final(self).current == (*old(self).graph)@.next_reader(u)
                },
                None => {
                    &&& r == Err::<(), IrError>(IrError::NullCursor)
                    &&& *final(self).graph == *old(self).graph
                    &&& final(self).current is None
                },
            },
    {
        match self.current {
            None => Err(IrError::NullCursor),
            Some(u) => {
                self.move_next();
                proof {
                    (*self.graph).lemma_wf_valid();
                    crate::graph::model::lemma_redirected_valid((*self.graph)@, u, new_value);
                }
                self.graph.update_input(u, new_value);
                Ok(())
            },
        }
    }
}

} // verus!
