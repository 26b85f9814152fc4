//! Tables keyed by ids.

use crate::node::NodeId;
use cranelift_entity::SecondaryMap;
use vstd::prelude::*;

verus! {

/// Where the entry of each id is kept.
#[verifier::external_body]
pub struct PlaceTable {
    map: SecondaryMap<NodeId, Option<u64>>,
}

/// The places by id, as far as the table reaches.
pub uninterp spec fn table_places(table: PlaceTable) -> Seq<Option<u64>>;

impl View for PlaceTable {
    type V = Seq<Option<u64>>;

    open spec fn view(&self) -> Seq<Option<u64>> {
        table_places(*self)
    }
}

impl PlaceTable {
    /// `SecondaryMap::new`: a table that reaches nowhere.
    #[verifier::external_body]
    fn new() -> (r: PlaceTable)
        ensures
            table_places(r) == Seq::<Option<u64>>::empty(),
    {
        PlaceTable { map: SecondaryMap::new() }
    }

    /// `SecondaryMap::keys`, and its length: how far the table reaches.
    #[verifier::external_body]
    fn len(&self) -> (r: usize)
        ensures
            r == table_places(*self).len(),
    {
        self.map.keys().len()
    }

    /// `SecondaryMap::index`: what is under an id; the default past the reach.
    #[verifier::external_body]
    fn get(&self, id: u32) -> (r: Option<u64>)
        ensures
            r == (if id < table_places(*self).len() {
                table_places(*self)[id as int]
            } else {
                None
            }),
    {
        self.map[NodeId(id)]
    }

    /// `SecondaryMap::index_mut`: what is under an id is replaced; the table
    /// grows to reach it, with the default in between.
    #[verifier::external_body]
    fn set(&mut self, id: u32, place: u64)
        ensures
            table_places(*final(self)) == Seq::new(
                if id < table_places(*old(self)).len() {
                    table_places(*old(self)).len()
                } else {
                    id as nat + 1
                },
                |k: int|
                    if k == id {
                        Some(place)
                    } else if k < table_places(*old(self)).len() {
                        table_places(*old(self))[k]
                    } else {
                        None
                    },
            ),
    {
        self.map[NodeId(id)] = Some(place);
    }
}

/// A table from ids to entries: the entries, each with its id, in the order in
/// which they came, and where to find them.
pub struct IdMap<T> {
    places: PlaceTable,
    entries: Vec<Option<(u32, T)>>,
}

/// Whether a translation sends no two ids to one.
pub open spec fn injective(to: Seq<Option<u32>>) -> bool {
    forall|i: int, j: int|
        0 <= i < to.len() && 0 <= j < to.len() && (#[trigger] to[i]) is Some && to[i]
            == #[trigger] to[j] ==> i == j
}

impl<T> IdMap<T> {
    /// The place of the entry under an id.
    closed spec fn place(&self, key: u32) -> Option<int> {
        if key < self.places@.len() {
            match self.places@[key as int] {
                Some(p) => if p < self.entries@.len() {
                    match self.entries@[p as int] {
                        Some(e) => if e.0 == key {
                            Some(p as int)
                        } else {
                            None
                        },
                        None => None,
                    }
                } else {
                    None
                },
                None => None,
            }
        } else {
            None
        }
    }

    /// The entry under an id.
    pub closed spec fn at(&self, key: u32) -> Option<T> {
        match self.place(key) {
            Some(p) => Some(self.entries@[p]->Some_0.1),
            None => None,
        }
    }

    /// One more than the largest id that was given an entry.
    pub closed spec fn bound(&self) -> nat {
        self.places@.len()
    }

    /// There is nothing past the bound.
    pub proof fn lemma_bound(&self, key: u32)
        requires
            key >= self.bound(),
        ensures
            self.at(key) is None,
    {
    }

    /// The table without entries.
    pub fn new() -> (r: IdMap<T>)
        ensures
            forall|key: u32| (#[trigger] r.at(key)) is None,
            r.bound() == 0,
    {
        IdMap { places: PlaceTable::new(), entries: Vec::new() }
    }

    /// One more than the largest id that was given an entry.
    pub fn len(&self) -> (r: usize)
        ensures
            r == self.bound(),
    {
        self.places.len()
    }

    fn place_of(&self, key: u32) -> (r: Option<usize>)
        ensures
            match r {
                Some(p) => self.place(key) == Some(p as int),
                None => self.place(key) is None,
            },
    {
        match self.places.get(key) {
            Some(p) => if p < self.entries.len() as u64 {
                match &self.entries[p as usize] {
                    Some(e) => if e.0 == key {
                        Some(p as usize)
                    } else {
                        None
                    },
                    None => None,
                }
            } else {
                None
            },
            None => None,
        }
    }

    /// The entry under an id.
    pub fn get(&self, key: u32) -> (r: Option<&T>)
        ensures
            match r {
                Some(t) => self.at(key) == Some(*t),
                None => self.at(key) is None,
            },
    {
        match self.place_of(key) {
            Some(p) => match &self.entries[p] {
                Some(e) => Some(&e.1),
                None => None,
            },
            None => None,
        }
    }

    /// Puts an entry under an id, in place of the one there.
    pub fn insert(&mut self, key: u32, entry: T)
        ensures
            forall|k: u32|
                #[trigger] final(self).at(k) == (if k == key {
                    Some(entry)
                } else {
                    old(self).at(k)
                }),
            old(self).bound() <= 0x1_0000_0000 ==> final(self).bound() <= 0x1_0000_0000,
            old(self).bound() <= final(self).bound(),
    {
        match self.place_of(key) {
            Some(p) => {
                self.entries.set(p, Some((key, entry)));
            },
            None => {
                let p = self.entries.len();
                self.entries.push(Some((key, entry)));
                self.places.set(key, p as u64);
            },
        }
    }

    /// Takes out the entry under an id.
    pub fn take(&mut self, key: u32) -> (r: Option<T>)
        ensures
            r == old(self).at(key),
            forall|k: u32|
                #[trigger] final(self).at(k) == (if k == key {
                    None
                } else {
                    old(self).at(k)
                }),
            final(self).bound() == old(self).bound(),
    {
        match self.place_of(key) {
            Some(p) => {
                let mut entry: Option<(u32, T)> = None;
                std::mem::swap(&mut entry, &mut self.entries[p]);
                match entry {
                    Some(e) => Some(e.1),
                    None => None,
                }
            },
            None => None,
        }
    }

    /// The table with every id translated; entries whose id goes nowhere are
    /// dropped.
    pub fn translated(self, to: &Vec<Option<u32>>) -> (r: IdMap<T>)
        requires
            injective(to@),
        ensures
            forall|k: int|
                0 <= k < to@.len() && k <= u32::MAX && (#[trigger] to@[k]) is Some ==> r.at(
                    to@[k]->Some_0,
                ) == self.at(k as u32),
            forall|m: u32|
                (#[trigger] r.at(m)) is Some ==> exists|k: int|
                    0 <= k < to@.len() && k <= u32::MAX && #[trigger] to@[k] == Some(m) && self.at(
                        k as u32,
                    ) == r.at(m),
    {
        let mut source = self;
        let mut r: IdMap<T> = IdMap::new();
        let mut i: usize = 0;
        while i < to.len() && i <= 0xffff_ffff
            invariant
                injective(to@),
                i <= to@.len(),
                forall|k: u32| k >= i ==> #[trigger] source.at(k) == self.at(k),
                forall|k: int|
                    0 <= k < i && k <= u32::MAX && (#[trigger] to@[k]) is Some ==> r.at(
                        to@[k]->Some_0,
                    ) == self.at(k as u32),
                forall|m: u32|
                    (#[trigger] r.at(m)) is Some ==> exists|k: int|
                        0 <= k < i && k <= u32::MAX && #[trigger] to@[k] == Some(m) && self.at(
                            k as u32,
                        ) == r.at(m),
            decreases to.len() - i,
        {
            let ghost before = r;
            let entry = source.take(i as u32);
            if let Some(t) = entry {
                if let Some(m) = to[i] {
                    r.insert(m, t);
                }
            }
            proof {
                assert(entry == self.at(i as u32));
                assert forall|k: int|
                    0 <= k < i + 1 && k <= u32::MAX && (#[trigger] to@[k]) is Some implies r.at(
                    to@[k]->Some_0,
                ) == self.at(k as u32) by {
                    if k == i {
                        if self.at(k as u32) is None {
                            if before.at(to@[k]->Some_0) is Some {
                                let j = choose|j: int|
                                    0 <= j < i && j <= u32::MAX && #[trigger] to@[j] == Some(
                                        to@[k]->Some_0,
                                    ) && self.at(j as u32) == before.at(to@[k]->Some_0);
                                assert(to@[j] == to@[k]);
                            }
                        }
                    } else {
                        assert(to@[i as int] is Some ==> to@[i as int] != to@[k]);
                    }
                }
                assert forall|m: u32| (#[trigger] r.at(m)) is Some implies exists|k: int|
                    0 <= k < i + 1 && k <= u32::MAX && #[trigger] to@[k] == Some(m) && self.at(
                        k as u32,
                    ) == r.at(m) by {
                    if to@[i as int] == Some(m) && entry is Some {
                        assert(to@[i as int] == Some(m));
                    } else {
                        assert(before.at(m) == r.at(m));
                        let k = choose|k: int|
                            0 <= k < i && k <= u32::MAX && #[trigger] to@[k] == Some(m) && self.at(
                                k as u32,
                            ) == before.at(m);
                        assert(to@[k] == Some(m));
                    }
                }
            }
            i += 1;
        }
        r
    }
}

/// Things that can be copied.
pub trait Alike: Sized {
    /// Whether another is a copy.
    spec fn alike(&self, other: &Self) -> bool;

    /// A copy.
    fn duplicate(&self) -> (r: Self)
        ensures
            self.alike(&r),
    ;
}

fn copy_list<T: Copy>(list: &Vec<T>) -> (r: Vec<T>)
    ensures
        r@ == list@,
{
    let mut r: Vec<T> = Vec::new();
    let mut i: usize = 0;
    while i < list.len()
        invariant
            i <= list.len(),
            r@ == list@.take(i as int),
        decreases list.len() - i,
    {
        r.push(list[i]);
        i += 1;
        assert(r@ =~= list@.take(i as int));
    }
    assert(r@ =~= list@);
    r
}

impl<T: Copy> Alike for Vec<T> {
    open spec fn alike(&self, other: &Self) -> bool {
        self@ == other@
    }

    fn duplicate(&self) -> (r: Self) {
        copy_list(self)
    }
}

impl Alike for String {
    open spec fn alike(&self, other: &Self) -> bool {
        self@ == other@
    }

    fn duplicate(&self) -> (r: Self) {
        self.as_str().to_owned()
    }
}

impl<T: Alike> IdMap<T> {
    /// Two tables hold copies under the same ids.
    pub open spec fn mirrors(&self, other: &IdMap<T>) -> bool {
        forall|k: u32|
            match (self.at(k), #[trigger] other.at(k)) {
                (Some(a), Some(b)) => a.alike(&b),
                (None, None) => true,
                _ => false,
            }
    }

    /// A table with copies of all entries.
    pub fn duplicate(&self) -> (r: IdMap<T>)
        ensures
            self.mirrors(&r),
    {
        let mut r: IdMap<T> = IdMap::new();
        let len = self.len();
        let mut i: usize = 0;
        while i < len && i <= 0xffff_ffff
            invariant
                len == self.bound(),
                i <= len,
                forall|k: u32|
                    k < i ==> match (self.at(k), #[trigger] r.at(k)) {
                        (Some(a), Some(b)) => a.alike(&b),
                        (None, None) => true,
                        _ => false,
                    },
                forall|k: u32| k >= i ==> (#[trigger] r.at(k)) is None,
            decreases len - i,
        {
            if let Some(entry) = self.get(i as u32) {
                r.insert(i as u32, entry.duplicate());
            }
            i += 1;
        }
        proof {
            assert forall|k: u32|
                match (self.at(k), #[trigger] r.at(k)) {
                    (Some(a), Some(b)) => a.alike(&b),
                    (None, None) => true,
                    _ => false,
                } by {
                if k >= i {
                    self.lemma_bound(k);
                }
            }
        }
        r
    }
}

} // verus!
