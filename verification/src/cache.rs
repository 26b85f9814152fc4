//! The dedup cache: structural keys, their hash, and the table that maps each
//! key to the node that has it.

use crate::node::{
    lemma_kind_words_injective, lemma_value_kind_word_injective, NodeKind, ValueId, ValueKind,
};
use rustc_hash::{FxBuildHasher, FxHasher};
use std::hash::Hasher;
use vstd::prelude::*;

verus! {

/// The words of the kind part of a key.
pub open spec fn kind_part(kind: NodeKind) -> Seq<u64> {
    seq![kind.words().tag, kind.words().a, kind.words().b, kind.words().c, kind.words().d]
}

/// The words of the input part of a key.
pub open spec fn input_part(inputs: Seq<ValueId>) -> Seq<u64> {
    Seq::new(inputs.len(), |i: int| inputs[i].0 as u64)
}

/// The words of the output part of a key.
pub open spec fn output_part(outputs: Seq<ValueKind>) -> Seq<u64> {
    Seq::new(outputs.len(), |i: int| outputs[i].word())
}

/// The structural key of a node: its kind, the values it reads and the kinds
/// it outputs, spelled as words. The length of each list comes before its
/// elements, so that no two structures share a key.
pub open spec fn node_key(
    kind: NodeKind,
    inputs: Seq<ValueId>,
    outputs: Seq<ValueKind>,
) -> Seq<u64> {
    (kind_part(kind).push(inputs.len() as u64) + input_part(inputs)).push(outputs.len() as u64)
        + output_part(outputs)
}

/// Two nodes with one key have one structure.
pub proof fn law_key_identifies_structure(
    k1: NodeKind,
    i1: Seq<ValueId>,
    o1: Seq<ValueKind>,
    k2: NodeKind,
    i2: Seq<ValueId>,
    o2: Seq<ValueKind>,
)
    requires
        i1.len() <= u64::MAX,
        i2.len() <= u64::MAX,
        node_key(k1, i1, o1) == node_key(k2, i2, o2),
    ensures
        k1 == k2,
        i1 == i2,
        o1 == o2,
{
    let a = node_key(k1, i1, o1);
    let b = node_key(k2, i2, o2);
    assert(a[0] == kind_part(k1)[0] && b[0] == kind_part(k2)[0]);
    assert(a[1] == kind_part(k1)[1] && b[1] == kind_part(k2)[1]);
    assert(a[2] == kind_part(k1)[2] && b[2] == kind_part(k2)[2]);
    assert(a[3] == kind_part(k1)[3] && b[3] == kind_part(k2)[3]);
    assert(a[4] == kind_part(k1)[4] && b[4] == kind_part(k2)[4]);
    assert(a[5] == i1.len() as u64 && b[5] == i2.len() as u64);
    assert(k1.words() == k2.words());
    lemma_kind_words_injective(k1, k2);
    assert(i1.len() == i2.len());
    assert(a.len() == 7 + i1.len() + o1.len());
    assert(b.len() == 7 + i2.len() + o2.len());
    assert forall|i: int| 0 <= i < i1.len() implies i1[i] == i2[i] by {
        assert(a[6 + i] == input_part(i1)[i]);
        assert(b[6 + i] == input_part(i2)[i]);
    }
    assert(i1 =~= i2);
    assert forall|i: int| 0 <= i < o1.len() implies o1[i] == o2[i] by {
        assert(a[7 + i1.len() + i] == output_part(o1)[i]);
        assert(b[7 + i1.len() + i] == output_part(o2)[i]);
        lemma_value_kind_word_injective(o1[i], o2[i]);
    }
    assert(o1 =~= o2);
}

/// Writes out the structural key of a node.
pub(crate) fn build_key(kind: &NodeKind, inputs: &[ValueId], outputs: &[ValueKind]) -> (r: Vec<u64>)
    ensures
        r@ == node_key(*kind, inputs@, outputs@),
{
    let code = kind.code();
    let mut key: Vec<u64> = Vec::new();
    key.push(code.tag);
    key.push(code.a);
    key.push(code.b);
    key.push(code.c);
    key.push(code.d);
    key.push(inputs.len() as u64);
    assert(key@ =~= kind_part(*kind).push(inputs@.len() as u64));
    let mut i: usize = 0;
    while i < inputs.len()
        invariant
            i <= inputs.len(),
            key@ == kind_part(*kind).push(inputs@.len() as u64) + input_part(inputs@.take(i as int)),
        decreases inputs.len() - i,
    {
        key.push(inputs[i].0 as u64);
        i += 1;
        assert(key@ =~= kind_part(*kind).push(inputs@.len() as u64) + input_part(
            inputs@.take(i as int),
        ));
    }
    assert(inputs@.take(i as int) =~= inputs@);
    key.push(outputs.len() as u64);
    let ghost front = (kind_part(*kind).push(inputs@.len() as u64) + input_part(inputs@)).push(
        outputs@.len() as u64,
    );
    assert(key@ =~= front + output_part(outputs@.take(0)));
    let mut j: usize = 0;
    while j < outputs.len()
        invariant
            j <= outputs.len(),
            key@ == front + output_part(outputs@.take(j as int)),
        decreases outputs.len() - j,
    {
        key.push(outputs[j].code());
        j += 1;
        assert(key@ =~= front + output_part(outputs@.take(j as int)));
    }
    assert(outputs@.take(j as int) =~= outputs@);
    key
}

#[verifier::external_type_specification]
#[verifier::external_body]
pub struct ExFxHasher(FxHasher);

/// What a hasher holds: the hash so far.
pub uninterp spec fn hasher_state(h: FxHasher) -> usize;

/// The odd number the hash is multiplied with.
pub open spec fn fx_factor() -> int {
    if usize::BITS == 64 {
        0xf135_7aea_2e62_a9c5
    } else {
        0x93d7_65dd
    }
}

/// The hash after a machine word: the word is added and the sum multiplied,
/// both modulo the size of a machine word.
pub open spec fn fx_add(state: usize, word: int) -> usize {
    (((state + word) * fx_factor()) % (usize::MAX + 1)) as usize
}

/// The hash after 64 bits: one machine word, or the low half and then the high
/// half where machine words are narrower.
pub open spec fn fx_write(state: usize, bits: u64) -> usize {
    if usize::BITS == 64 {
        fx_add(state, bits as int)
    } else {
        fx_add(fx_add(state, bits as int % 0x1_0000_0000), bits as int / 0x1_0000_0000)
    }
}

/// The hash in the end: its top 26 bits, or 15 where machine words are
/// narrower, come to the bottom.
pub open spec fn fx_finish(state: usize) -> u64 {
    if usize::BITS == 64 {
        ((state as int % 0x40_0000_0000) * 0x400_0000 + state as int / 0x40_0000_0000) as u64
    } else {
        ((state as int % 0x2_0000) * 0x8000 + state as int / 0x2_0000) as u64
    }
}

/// The hash after a sequence of words, from what a hasher held before them.
pub open spec fn fx_words(start: usize, words: Seq<u64>) -> usize
    decreases words.len(),
{
    if words.len() == 0 {
        start
    } else {
        fx_write(fx_words(start, words.drop_last()), words.last())
    }
}

/// `FxHasher::default`: a hasher whose hash is zero.
#[verifier::external_body]
pub(crate) fn hasher_new() -> (r: FxHasher)
    ensures
        hasher_state(r) == 0,
{
    FxHasher::default()
}

/// `FxHasher::write_u64`: takes in one more word.
#[verifier::external_body]
fn hasher_write(h: &mut FxHasher, word: u64)
    ensures
        hasher_state(*final(h)) == fx_write(hasher_state(*old(h)), word),
{
    h.write_u64(word)
}

/// `FxHasher::finish`: the hash so far, rotated.
#[verifier::external_body]
fn hasher_finish(h: &FxHasher) -> (r: u64)
    ensures
        r == fx_finish(hasher_state(*h)),
{
    h.finish()
}

/// Hashes a structural key given by its parts: the hash of the words of the
/// key, from what the hasher holds, so that equal structures hash alike.
pub fn hash_borrowed_key(
    hasher: FxHasher,
    node: &NodeKind,
    inputs: &[ValueId],
    output_kinds: &[ValueKind],
) -> (r: u64)
    ensures
        r == fx_finish(fx_words(hasher_state(hasher), node_key(*node, inputs@, output_kinds@))),
{
    let key = build_key(node, inputs, output_kinds);
    let mut h = hasher;
    let mut i: usize = 0;
    assert(key@.take(0) =~= Seq::<u64>::empty());
    while i < key.len()
        invariant
            i <= key.len(),
            hasher_state(h) == fx_words(hasher_state(hasher), key@.take(i as int)),
        decreases key.len() - i,
    {
        hasher_write(&mut h, key[i]);
        i += 1;
        assert(key@.take(i as int).drop_last() =~= key@.take(i - 1));
        assert(key@.take(i as int).last() == key@[i - 1]);
    }
    assert(key@.take(i as int) =~= key@);
    hasher_finish(&h)
}

/// Keys and the node index each maps to.
#[verifier::external_body]
pub struct DedupTable {
    map: hashbrown::HashMap<Vec<u64>, u32, FxBuildHasher>,
}

/// The entries of a table.
pub uninterp spec fn table_entries(table: DedupTable) -> Map<Seq<u64>, u32>;

impl View for DedupTable {
    type V = Map<Seq<u64>, u32>;

    open spec fn view(&self) -> Map<Seq<u64>, u32> {
        table_entries(*self)
    }
}

impl DedupTable {
    /// `hashbrown::HashMap::with_hasher`: a table without entries.
    #[verifier::external_body]
    pub(crate) fn new() -> (r: DedupTable)
        ensures
            table_entries(r).is_empty(),
    {
        DedupTable { map: hashbrown::HashMap::with_hasher(FxBuildHasher) }
    }

    /// `hashbrown::HashMap::clone`: a table with the same entries.
    #[verifier::external_body]
    pub(crate) fn duplicate(&self) -> (r: DedupTable)
        ensures
            table_entries(r) == table_entries(*self),
    {
        DedupTable { map: self.map.clone() }
    }

    /// `hashbrown::HashMap::get`: what a key maps to.
    #[verifier::external_body]
    pub(crate) fn get(&self, key: &Vec<u64>) -> (r: Option<u32>)
        ensures
            r == (if table_entries(*self).contains_key(key@) {
                Some(table_entries(*self)[key@])
            } else {
                None
            }),
    {
        self.map.get(key).copied()
    }

    /// `hashbrown::HashMap::insert`: maps a key, in place of what it mapped to.
    #[verifier::external_body]
    pub(crate) fn insert(&mut self, key: Vec<u64>, node: u32)
        ensures
            table_entries(*final(self)) == table_entries(*old(self)).insert(key@, node),
    {
        self.map.insert(key, node);
    }

    /// `hashbrown::HashMap::remove`: takes a key out, if it is there.
    #[verifier::external_body]
    pub(crate) fn remove(&mut self, key: &Vec<u64>)
        ensures
            table_entries(*final(self)) == table_entries(*old(self)).remove(key@),
    {
        self.map.remove(key);
    }
}

} // verus!
