//! Names of user-defined operations.

use vstd::prelude::*;

verus! {

/// Names by operation number.
pub struct NameTable {
    keys: Vec<u64>,
    names: Vec<String>,
}

impl NameTable {
    /// The name of an operation.
    pub closed spec fn at(&self, key: u64) -> Option<Seq<char>> {
        if self.keys@.contains(key) {
            Some(self.names@[self.keys@.index_of(key)]@)
        } else {
            None
        }
    }

    /// No operation has two names.
    pub closed spec fn wf(&self) -> bool {
        self.keys@.len() == self.names@.len() && self.keys@.no_duplicates()
    }

    /// The table without names.
    pub fn new() -> (r: NameTable)
        ensures
            r.wf(),
            forall|k: u64| (#[trigger] r.at(k)) is None,
    {
        NameTable { keys: Vec::new(), names: Vec::new() }
    }

    /// A table with the same names.
    pub fn duplicate(&self) -> (r: NameTable)
        requires
            self.wf(),
        ensures
            r.wf(),
            forall|k: u64| #[trigger] r.at(k) == self.at(k),
    {
        let mut keys: Vec<u64> = Vec::new();
        let mut names: Vec<String> = Vec::new();
        let mut i: usize = 0;
        while i < self.keys.len()
            invariant
                self.wf(),
                i <= self.keys.len(),
                keys@ == self.keys@.take(i as int),
                names@.len() == i,
                forall|k: int| 0 <= k < i ==> (#[trigger] names@[k])@ == self.names@[k]@,
            decreases self.keys.len() - i,
        {
            keys.push(self.keys[i]);
            names.push(self.names[i].as_str().to_owned());
            i += 1;
            assert(keys@ =~= self.keys@.take(i as int));
        }
        assert(keys@ =~= self.keys@);
        let r = NameTable { keys, names };
        proof {
            assert forall|k: u64| #[trigger] r.at(k) == self.at(k) by {
                if self.keys@.contains(k) {
                    let x = self.keys@.index_of(k);
                    assert(r.names@[x]@ == self.names@[x]@);
                }
            }
        }
        r
    }

    fn find(&self, key: u64) -> (r: Option<usize>)
        requires
            self.wf(),
        ensures
            match r {
                Some(i) => i < self.keys@.len() && self.keys@[i as int] == key
                    && self.keys@.index_of(key) == i && self.keys@.contains(key),
                None => !self.keys@.contains(key),
            },
    {
        let mut i: usize = 0;
        while i < self.keys.len()
            invariant
                self.wf(),
                i <= self.keys.len(),
                forall|k: int| 0 <= k < i ==> self.keys@[k] != key,
            decreases self.keys.len() - i,
        {
            if self.keys[i] == key {
                proof {
                    assert(self.keys@[i as int] == key);
                    assert(self.keys@.contains(key));
                    let j = self.keys@.index_of(key);
                    assert(self.keys@[j] == self.keys@[i as int]);
                }
                return Some(i);
            }
            i += 1;
        }
        None
    }

    /// The name of an operation.
    pub fn get(&self, key: u64) -> (r: Option<&str>)
        requires
            self.wf(),
        ensures
            match r {
                Some(s) => self.at(key) == Some(s@),
                None => self.at(key) is None,
            },
    {
        match self.find(key) {
            Some(i) => Some(self.names[i].as_str()),
            None => None,
        }
    }

    /// Names an operation, in place of any name before.
    pub fn insert(&mut self, key: u64, name: String)
        requires
            old(self).wf(),
        ensures
            final(self).wf(),
            forall|k: u64|
                #[trigger] final(self).at(k) == (if k == key {
                    Some(name@)
                } else {
                    old(self).at(k)
                }),
    {
        match self.find(key) {
            Some(i) => {
                self.names.set(i, name);
                proof {
                    assert forall|k: u64| #[trigger] self.at(k) == (if k == key {
                        Some(name@)
                    } else {
                        old(self).at(k)
                    }) by {
                        if k != key && self.keys@.contains(k) {
                            let j = self.keys@.index_of(k);
                            assert(self.keys@[j] == k);
                            assert(j != i);
                        }
                    }
                }
            },
            None => {
                self.keys.push(key);
                self.names.push(name);
                proof {
                    let n = old(self).keys@.len() as int;
                    assert(self.keys@[n] == key);
                    assert forall|a: int, b: int| 0 <= a < b < self.keys@.len() implies self.keys@[a]
                        != self.keys@[b] by {
                        assert(old(self).keys@.contains(old(self).keys@[a]));
                    }
                    assert forall|k: u64| #[trigger] self.at(k) == (if k == key {
                        Some(name@)
                    } else {
                        old(self).at(k)
                    }) by {
                        if k == key {
                            let j = self.keys@.index_of(k);
                            assert(self.keys@.contains(k));
                            assert(self.keys@[j] == self.keys@[n]);
                        } else if old(self).keys@.contains(k) {
                            let j = old(self).keys@.index_of(k);
                            assert(self.keys@[j] == k);
                            assert(self.keys@.contains(k));
                            let x = self.keys@.index_of(k);
                            assert(self.keys@[x] == self.keys@[j]);
                        } else if self.keys@.contains(k) {
                            let x = self.keys@.index_of(k);
                            assert(self.keys@[x] == k);
                            assert(old(self).keys@[x] == k);
                        }
                    }
                }
            },
        }
    }
}

} // verus!
