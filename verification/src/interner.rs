//! Interning: each value gets one small id.

use crate::node::ValueId;
use crate::target::{BuiltCallingConvention, Vn};
use vstd::prelude::*;

verus! {

/// Values that can be told apart.
pub trait Same: View + Sized {
    /// Whether two values are the same.
    fn same(&self, other: &Self) -> (r: bool)
        ensures
            r == (self.view() == other.view()),
    ;

    /// A value that is the same.
    fn copy_of(&self) -> (r: Self)
        ensures
            r.view() == self.view(),
    ;
}

impl View for Vn {
    type V = Vn;

    open spec fn view(&self) -> Vn {
        *self
    }
}

impl Same for Vn {
    fn same(&self, other: &Self) -> (r: bool) {
        *self == *other
    }

    fn copy_of(&self) -> (r: Self) {
        *self
    }
}

impl Same for BuiltCallingConvention {
    fn same(&self, other: &Self) -> (r: bool) {
        BuiltCallingConvention::same(self, other)
    }

    fn copy_of(&self) -> (r: Self) {
        self.duplicate()
    }
}

/// An address as a base value and a byte offset from it.
#[derive(Clone, Copy, PartialEq, Eq, Structural, Debug)]
pub struct MemSlot {
    pub base: ValueId,
    pub offset: i128,
}

impl View for MemSlot {
    type V = MemSlot;

    open spec fn view(&self) -> MemSlot {
        *self
    }
}

impl Same for MemSlot {
    fn same(&self, other: &Self) -> (r: bool) {
        *self == *other
    }

    fn copy_of(&self) -> (r: Self) {
        *self
    }
}

/// Distinct values in the order they were first seen; the id of a value is its
/// place.
pub struct EntityInterner<T: Same> {
    items: Vec<T>,
}

impl<T: Same> View for EntityInterner<T> {
    type V = Seq<T::V>;

    closed spec fn view(&self) -> Seq<T::V> {
        Seq::new(self.items@.len(), |i: int| self.items@[i].view())
    }
}

/// The interned values after interning `x`.
pub open spec fn interned<V>(s: Seq<V>, x: V) -> Seq<V> {
    if s.contains(x) {
        s
    } else {
        s.push(x)
    }
}

/// The interned values after interning all of `xs` in order.
pub open spec fn interned_all<V>(s: Seq<V>, xs: Seq<V>) -> Seq<V>
    decreases xs.len(),
{
    if xs.len() == 0 {
        s
    } else {
        interned(interned_all(s, xs.drop_last()), xs.last())
    }
}

impl<T: Same> EntityInterner<T> {
    /// No value has two ids.
    pub open spec fn wf(&self) -> bool {
        self@.no_duplicates() && self@.len() <= u32::MAX
    }

    /// The interner without values.
    pub fn new() -> (r: Self)
        ensures
            r.wf(),
            r@ == Seq::<T::V>::empty(),
    {
        let r = EntityInterner { items: Vec::new() };
        assert(r@ =~= Seq::<T::V>::empty());
        r
    }

    /// An interner with the same values under the same ids.
    pub fn duplicate(&self) -> (r: Self)
        ensures
            r@ == self@,
    {
        let mut items: Vec<T> = Vec::new();
        let mut i: usize = 0;
        while i < self.items.len()
            invariant
                i <= self.items.len(),
                items@.len() == i,
                forall|k: int| 0 <= k < i ==> (#[trigger] items@[k]).view() == self.items@[k].view(),
            decreases self.items.len() - i,
        {
            items.push(self.items[i].copy_of());
            i += 1;
        }
        let r = EntityInterner { items };
        assert(r@ =~= self@);
        r
    }

    /// The number of values.
    pub fn len(&self) -> (r: usize)
        ensures
            r == self@.len(),
    {
        self.items.len()
    }

    /// The id of a value.
    pub fn key_of(&self, value: &T) -> (r: Option<u32>)
        requires
            self.wf(),
        ensures
            match r {
                Some(i) => i < self@.len() && self@[i as int] == value@,
                None => !self@.contains(value@),
            },
    {
        let mut i: usize = 0;
        while i < self.items.len()
            invariant
                self.wf(),
                i <= self.items.len(),
                forall|k: int| 0 <= k < i ==> #[trigger] self@[k] != value@,
            decreases self.items.len() - i,
        {
            if self.items[i].same(value) {
                assert(self@[i as int] == value@);
                return Some(i as u32);
            }
            i += 1;
        }
        None
    }

    /// The value with an id.
    pub fn get(&self, id: u32) -> (r: Option<&T>)
        ensures
            match r {
                Some(t) => id < self@.len() && t@ == self@[id as int],
                None => id >= self@.len(),
            },
    {
        let i: usize = id as usize;
        if i < self.items.len() {
            Some(&self.items[i])
        } else {
            None
        }
    }

    /// The value with an id that is in use.
    pub fn at(&self, id: u32) -> (r: &T)
        requires
            id < self@.len(),
        ensures
            r@ == self@[id as int],
    {
        &self.items[id as usize]
    }

    /// The values in id order.
    pub fn values_as_slice(&self) -> (r: &[T])
        ensures
            r@.len() == self@.len(),
            forall|i: int| 0 <= i < r@.len() ==> (#[trigger] r@[i])@ == self@[i],
    {
        self.items.as_slice()
    }

    /// The id of `value`, a new one if it had none.
    pub fn intern(&mut self, value: T) -> (r: u32)
        requires
            old(self).wf(),
            old(self)@.len() < u32::MAX || old(self)@.contains(value@),
        ensures
            final(self).wf(),
            final(self)@ == interned(old(self)@, value@),
            r < final(self)@.len(),
            final(self)@[r as int] == value@,
    {
        match self.key_of(&value) {
            Some(i) => {
                assert(self@[i as int] == value@);
                assert(self@.contains(value@));
                i
            },
            None => {
                let i: u32 = self.items.len() as u32;
                let ghost before = self@;
                self.items.push(value);
                assert(self@ =~= before.push(value@));
                assert forall|a: int, b: int| 0 <= a < b < self@.len() implies self@[a]
                    != self@[b] by {
                    if b == before.len() {
                        assert(before[a] == self@[a]);
                        assert(before.contains(before[a]));
                    }
                }
                i
            },
        }
    }
}

/// Interning keeps the ids there are.
pub proof fn law_intern_keeps_ids<V>(s: Seq<V>, x: V, id: int)
    requires
        0 <= id < s.len(),
    ensures
        id < interned(s, x).len(),
        interned(s, x)[id] == s[id],
        interned(s, x).contains(x),
        interned(interned(s, x), x) == interned(s, x),
{
    if !s.contains(x) {
        assert(s.push(x)[s.len() as int] == x);
    }
}

} // verus!
