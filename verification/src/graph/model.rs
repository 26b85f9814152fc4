//! The graph as mathematics: what every operation does to the nodes, the
//! values, the input slots and the use lists.

use crate::arena::NodeModel;
use crate::cache::node_key;
use crate::node::{NodeId, NodeKind, UseId, ValueId, ValueKind};
use vstd::prelude::*;

verus! {

/// A value: its kind, the node it comes from and its place among the outputs.
pub struct ValueModel {
    pub kind: ValueKind,
    pub source: NodeId,
    pub index: u32,
}

/// An input slot: the value it reads, the node it belongs to and its place
/// among the inputs.
pub struct UseModel {
    pub value: ValueId,
    pub node: NodeId,
    pub index: u32,
}

/// The graph: nodes, values and input slots by id, for each value the slots
/// that read it, latest first, and the dedup cache.
#[verifier::ext_equal]
pub struct GraphModel {
    pub nodes: Seq<NodeModel>,
    pub values: Seq<ValueModel>,
    pub uses: Seq<UseModel>,
    pub lists: Seq<Seq<UseId>>,
    pub cache: Map<Seq<u64>, u32>,
    pub generation: u64,
}

/// A list with one slot taken out.
pub open spec fn drop_use(list: Seq<UseId>, u: UseId) -> Seq<UseId> {
    list.remove(list.index_of(u))
}

/// What is left of `s` from position `p` on without the listed positions.
pub open spec fn kept_from(s: Seq<ValueId>, listed: Seq<usize>, p: int) -> Seq<ValueId>
    decreases s.len() - p,
{
    if p >= s.len() {
        Seq::empty()
    } else if exists|k: int| 0 <= k < listed.len() && #[trigger] listed[k] == p {
        kept_from(s, listed, p + 1)
    } else {
        seq![s[p]] + kept_from(s, listed, p + 1)
    }
}

impl GraphModel {
    pub open spec fn has_node(self, n: NodeId) -> bool {
        n.0 < self.nodes.len()
    }

    pub open spec fn has_value(self, v: ValueId) -> bool {
        v.0 < self.values.len()
    }

    pub open spec fn has_use(self, u: UseId) -> bool {
        u.0 < self.uses.len()
    }

    pub open spec fn kind(self, n: NodeId) -> NodeKind {
        self.nodes[n.0 as int].kind
    }

    /// The input slots of a node.
    pub open spec fn slots(self, n: NodeId) -> Seq<UseId> {
        self.nodes[n.0 as int].inputs
    }

    /// The values a node reads, in slot order.
    pub open spec fn ins(self, n: NodeId) -> Seq<ValueId> {
        Seq::new(self.slots(n).len(), |i: int| self.uses[self.slots(n)[i].0 as int].value)
    }

    /// The values a node defines, in order.
    pub open spec fn outs(self, n: NodeId) -> Seq<ValueId> {
        self.nodes[n.0 as int].outputs
    }

    pub open spec fn value_kind(self, v: ValueId) -> ValueKind {
        self.values[v.0 as int].kind
    }

    pub open spec fn producer(self, v: ValueId) -> NodeId {
        self.values[v.0 as int].source
    }

    /// The kinds of the values a node defines.
    pub open spec fn out_kinds(self, n: NodeId) -> Seq<ValueKind> {
        Seq::new(self.outs(n).len(), |i: int| self.value_kind(self.outs(n)[i]))
    }

    /// The slots that read a value, latest first.
    pub open spec fn readers(self, v: ValueId) -> Seq<UseId> {
        self.lists[v.0 as int]
    }

    /// The `(node, input index)` pairs that read a value, latest first.
    pub open spec fn reader_positions(self, v: ValueId) -> Seq<(NodeId, u32)> {
        Seq::new(
            self.readers(v).len(),
            |i: int|
                (
                    self.uses[self.readers(v)[i].0 as int].node,
                    self.uses[self.readers(v)[i].0 as int].index,
                ),
        )
    }

    /// The slot after `u` in the list of the value it reads.
    pub open spec fn next_reader(self, u: UseId) -> Option<UseId> {
        let list = self.readers(self.uses[u.0 as int].value);
        let i = list.index_of(u) + 1;
        if 0 <= i < list.len() {
            Some(list[i])
        } else {
            None
        }
    }

    /// The structural key of a node.
    pub open spec fn key(self, n: NodeId) -> Seq<u64> {
        node_key(self.kind(n), self.ins(n), self.out_kinds(n))
    }

    /// Whether a slot is among the inputs of its node.
    pub open spec fn attached(self, u: UseId) -> bool {
        let d = self.uses[u.0 as int];
        &&& self.has_node(d.node)
        &&& d.index < self.slots(d.node).len()
        &&& self.slots(d.node)[d.index as int] == u
    }

    /// The `i`-th input of `n` is a slot that knows its place and is in the
    /// list of the value it reads.
    pub open spec fn slot_ok(self, n: int, i: int) -> bool {
        let u = self.nodes[n].inputs[i];
        &&& self.has_use(u)
        &&& self.uses[u.0 as int].node.0 == n
        &&& self.uses[u.0 as int].index == i
        &&& self.lists[self.uses[u.0 as int].value.0 as int].contains(u)
    }

    /// The `i`-th output of `n` is a value that knows its place.
    pub open spec fn output_ok(self, n: int, i: int) -> bool {
        let v = self.nodes[n].outputs[i];
        &&& self.has_value(v)
        &&& self.values[v.0 as int].source.0 == n
        &&& self.values[v.0 as int].index == i
    }

    /// The `i`-th reader of `v` is an attached slot that reads `v`.
    pub open spec fn reader_ok(self, v: int, i: int) -> bool {
        let u = self.lists[v][i];
        &&& self.has_use(u)
        &&& self.uses[u.0 as int].value.0 == v
        &&& self.attached(u)
    }

    /// Value `v` is the output its source node says it is.
    pub open spec fn value_ok(self, v: int) -> bool {
        let d = self.values[v];
        &&& self.has_node(d.source)
        &&& d.index < self.outs(d.source).len()
        &&& self.outs(d.source)[d.index as int].0 == v
    }

    /// The cache maps `key` to a shared node with that very structure.
    pub open spec fn entry_ok(self, key: Seq<u64>) -> bool {
        let n = NodeId(self.cache[key]);
        &&& self.has_node(n)
        &&& self.kind(n).cacheable()
        &&& self.key(n) == key
    }

    /// Ids fit their 32 bits.
    pub open spec fn sizes_ok(self) -> bool {
        &&& self.nodes.len() <= u32::MAX
        &&& self.values.len() <= u32::MAX
        &&& self.uses.len() <= u32::MAX
        &&& self.lists.len() == self.values.len()
        &&& forall|n: int|
            0 <= n < self.nodes.len() ==> (#[trigger] self.nodes[n]).inputs.len()
                <= self.uses.len() && self.nodes[n].outputs.len() <= self.values.len()
    }

    /// The invariant of the graph: every input slot is in exactly the list of
    /// the value it reads, once, every value belongs to the node that defines
    /// it, and the cache is sound.
    pub open spec fn valid(self) -> bool {
        &&& self.sizes_ok()
        &&& forall|n: int, i: int|
            #![trigger self.nodes[n].inputs[i]]
            0 <= n < self.nodes.len() && 0 <= i < self.nodes[n].inputs.len() ==> self.slot_ok(n, i)
        &&& forall|n: int, i: int|
            #![trigger self.nodes[n].outputs[i]]
            0 <= n < self.nodes.len() && 0 <= i < self.nodes[n].outputs.len() ==> self.output_ok(
                n,
                i,
            )
        &&& forall|v: int| 0 <= v < self.values.len() ==> #[trigger] self.value_ok(v)
        &&& forall|v: int, i: int|
            #![trigger self.lists[v][i]]
            0 <= v < self.lists.len() && 0 <= i < self.lists[v].len() ==> self.reader_ok(v, i)
        &&& forall|v: int|
            0 <= v < self.lists.len() ==> (#[trigger] self.lists[v]).no_duplicates()
        &&& forall|u: int|
            0 <= u < self.uses.len() ==> self.has_value((#[trigger] self.uses[u]).value)
                && self.has_node(self.uses[u].node)
        &&& forall|key: Seq<u64>| #[trigger] self.cache.contains_key(key) ==> self.entry_ok(key)
    }

    // -- what the operations do ---------------------------------------------

    /// The graph without the cache entry of `n`'s structure.
    pub open spec fn evicted(self, n: NodeId) -> GraphModel {
        if self.kind(n).cacheable() {
            GraphModel { cache: self.cache.remove(self.key(n)), ..self }
        } else {
            self
        }
    }

    /// The graph with `n` entered into the cache.
    pub open spec fn cached(self, n: NodeId) -> GraphModel {
        GraphModel { cache: self.cache.insert(self.key(n), n.0), ..self }
    }

    /// The graph with one more node, which has neither inputs nor outputs.
    pub open spec fn with_node(self, kind: NodeKind) -> GraphModel {
        GraphModel {
            nodes: self.nodes.push(
                NodeModel { kind, inputs: Seq::empty(), outputs: Seq::empty() },
            ),
            ..self
        }
    }

    /// The graph with one more input of `n`, reading `v`.
    pub open spec fn with_input(self, n: NodeId, v: ValueId) -> GraphModel {
        let u = UseId(self.uses.len() as u32);
        let d = self.nodes[n.0 as int];
        GraphModel {
            nodes: self.nodes.update(n.0 as int, NodeModel { inputs: d.inputs.push(u), ..d }),
            uses: self.uses.push(
                UseModel { value: v, node: n, index: d.inputs.len() as u32 },
            ),
            lists: self.lists.update(v.0 as int, seq![u] + self.readers(v)),
            ..self
        }
    }

    /// The graph with inputs reading `vs` appended to `n`, in order.
    pub open spec fn with_inputs(self, n: NodeId, vs: Seq<ValueId>) -> GraphModel
        decreases vs.len(),
    {
        if vs.len() == 0 {
            self
        } else {
            self.with_inputs(n, vs.drop_last()).with_input(n, vs.last())
        }
    }

    /// The graph with one more output of `n`.
    pub open spec fn with_output(self, n: NodeId, kind: ValueKind) -> GraphModel {
        let v = ValueId(self.values.len() as u32);
        let d = self.nodes[n.0 as int];
        GraphModel {
            nodes: self.nodes.update(n.0 as int, NodeModel { outputs: d.outputs.push(v), ..d }),
            values: self.values.push(
                ValueModel { kind, source: n, index: d.outputs.len() as u32 },
            ),
            lists: self.lists.push(Seq::empty()),
            ..self
        }
    }

    /// The graph with outputs of the given kinds appended to `n`, in order.
    pub open spec fn with_outputs(self, n: NodeId, kinds: Seq<ValueKind>) -> GraphModel
        decreases kinds.len(),
    {
        if kinds.len() == 0 {
            self
        } else {
            self.with_outputs(n, kinds.drop_last()).with_output(n, kinds.last())
        }
    }

    /// The graph with a fresh node of the given structure, entered into the
    /// cache if its kind is shared.
    pub open spec fn with_fresh(
        self,
        kind: NodeKind,
        inputs: Seq<ValueId>,
        outputs: Seq<ValueKind>,
    ) -> GraphModel {
        let n = NodeId(self.nodes.len() as u32);
        let g = self.with_node(kind).with_inputs(n, inputs).with_outputs(n, outputs);
        if kind.cacheable() {
            g.cached(n)
        } else {
            g
        }
    }

    /// Whether the cache already holds a node of the given structure.
    pub open spec fn shares(
        self,
        kind: NodeKind,
        inputs: Seq<ValueId>,
        outputs: Seq<ValueKind>,
    ) -> bool {
        kind.cacheable() && self.cache.contains_key(node_key(kind, inputs, outputs))
    }

    /// The node that creating the given structure returns.
    pub open spec fn created_id(
        self,
        kind: NodeKind,
        inputs: Seq<ValueId>,
        outputs: Seq<ValueKind>,
    ) -> NodeId {
        if self.shares(kind, inputs, outputs) {
            NodeId(self.cache[node_key(kind, inputs, outputs)])
        } else {
            NodeId(self.nodes.len() as u32)
        }
    }

    /// The graph after creating the given structure.
    pub open spec fn created(
        self,
        kind: NodeKind,
        inputs: Seq<ValueId>,
        outputs: Seq<ValueKind>,
    ) -> GraphModel {
        if self.shares(kind, inputs, outputs) {
            self
        } else {
            self.with_fresh(kind, inputs, outputs)
        }
    }

    /// The graph with slot `u` out of its value's list.
    pub open spec fn unlinked(self, u: UseId) -> GraphModel {
        let v = self.uses[u.0 as int].value;
        GraphModel {
            lists: self.lists.update(v.0 as int, drop_use(self.readers(v), u)),
            ..self
        }
    }

    /// The graph with slot `u` reading `v`, at the head of `v`'s list.
    pub open spec fn relinked(self, u: UseId, v: ValueId) -> GraphModel {
        let d = self.uses[u.0 as int];
        GraphModel {
            uses: self.uses.update(u.0 as int, UseModel { value: v, ..d }),
            lists: self.lists.update(v.0 as int, seq![u] + self.readers(v)),
            ..self
        }
    }

    /// The graph with slot `u` redirected to `v`. The cache loses the entry of
    /// the structure the owner had; redirecting to the same value is nothing.
    pub open spec fn redirected(self, u: UseId, v: ValueId) -> GraphModel {
        if self.uses[u.0 as int].value == v {
            self
        } else {
            self.evicted(self.uses[u.0 as int].node).unlinked(u).relinked(u, v)
        }
    }

    /// The graph with every slot of `us` redirected to `v`, in order.
    pub open spec fn redirected_all(self, us: Seq<UseId>, v: ValueId) -> GraphModel
        decreases us.len(),
    {
        if us.len() == 0 {
            self
        } else {
            self.redirected_all(us.drop_last(), v).redirected(us.last(), v)
        }
    }

    /// Whether slot `u` is an input of `n` after position `i`.
    pub open spec fn follows(self, u: int, n: NodeId, i: int) -> bool {
        self.uses[u].node == n && self.uses[u].index > i && self.attached(UseId(u as u32))
    }

    /// The graph with the `i`-th input of `n` taken out and the later ones
    /// moved up by one.
    pub open spec fn without_input(self, n: NodeId, i: int) -> GraphModel {
        let d = self.nodes[n.0 as int];
        let u = d.inputs[i];
        GraphModel {
            nodes: self.nodes.update(n.0 as int, NodeModel { inputs: d.inputs.remove(i), ..d }),
            uses: Seq::new(
                self.uses.len(),
                |x: int|
                    if self.follows(x, n, i) {
                        UseModel { index: (self.uses[x].index - 1) as u32, ..self.uses[x] }
                    } else {
                        self.uses[x]
                    },
            ),
            ..self.unlinked(u)
        }
    }

    /// The graph with every slot of `us` out of its value's list.
    pub open spec fn unlinked_all(self, us: Seq<UseId>) -> GraphModel
        decreases us.len(),
    {
        if us.len() == 0 {
            self
        } else {
            self.unlinked_all(us.drop_last()).unlinked(us.last())
        }
    }

    /// The graph with every input of `n` taken out, and the cache entry of the
    /// structure it had.
    pub open spec fn detached(self, n: NodeId) -> GraphModel {
        let g = self.evicted(n).unlinked_all(self.slots(n));
        GraphModel {
            nodes: g.nodes.update(
                n.0 as int,
                NodeModel { inputs: Seq::empty(), ..g.nodes[n.0 as int] },
            ),
            ..g
        }
    }

    /// The graph with the inputs of `n` at the listed positions from `p` on
    /// taken out, the last one first.
    pub open spec fn without_inputs_from(self, n: NodeId, listed: Seq<usize>, p: int) -> GraphModel
        decreases self.slots(n).len() - p,
    {
        if p >= self.slots(n).len() {
            self
        } else {
            let later = self.without_inputs_from(n, listed, p + 1);
            if exists|k: int| 0 <= k < listed.len() && #[trigger] listed[k] == p {
                later.without_input(n, p)
            } else {
                later
            }
        }
    }

    /// The graph with the kind of `n` replaced.
    pub open spec fn with_kind(self, n: NodeId, kind: NodeKind) -> GraphModel {
        GraphModel {
            nodes: self.nodes.update(n.0 as int, NodeModel { kind, ..self.nodes[n.0 as int] }),
            ..self
        }
    }

    /// `self` is `g` with things added at the end: ids of `g` mean the same.
    pub open spec fn extends(self, g: GraphModel) -> bool {
        &&& g.nodes.len() <= self.nodes.len()
        &&& g.values.len() <= self.values.len()
        &&& g.uses.len() <= self.uses.len()
        &&& forall|n: int| 0 <= n < g.nodes.len() ==> #[trigger] self.nodes[n] == g.nodes[n]
        &&& forall|v: int| 0 <= v < g.values.len() ==> #[trigger] self.values[v] == g.values[v]
        &&& forall|u: int| 0 <= u < g.uses.len() ==> #[trigger] self.uses[u] == g.uses[u]
    }

    /// The cache after entering the first `k` nodes in id order: a later node
    /// takes the place of an earlier one with its structure.
    pub open spec fn cache_of_first(self, k: nat) -> Map<Seq<u64>, u32>
        decreases k,
    {
        if k == 0 {
            Map::empty()
        } else {
            let n = NodeId((k - 1) as u32);
            let rest = self.cache_of_first((k - 1) as nat);
            if self.kind(n).cacheable() {
                rest.insert(self.key(n), n.0)
            } else {
                rest
            }
        }
    }

    /// The graph with its cache built anew.
    pub open spec fn recached(self) -> GraphModel {
        GraphModel { cache: self.cache_of_first(self.nodes.len()), ..self }
    }

    /// The graph with an empty cache.
    pub open spec fn uncached(self) -> GraphModel {
        GraphModel { cache: Map::empty(), ..self }
    }

    /// Room for `nodes` more nodes, `uses` more slots and `values` more values.
    pub open spec fn has_room(self, nodes: int, uses: int, values: int) -> bool {
        &&& self.nodes.len() + nodes <= u32::MAX
        &&& self.uses.len() + uses <= u32::MAX
        &&& self.values.len() + values <= u32::MAX
    }
}

// -- the invariant is kept ----------------------------------------------------

proof fn lemma_front_contains(list: Seq<UseId>, u: UseId, x: UseId)
    ensures
        (seq![u] + list).contains(x) <==> (x == u || list.contains(x)),
{
    let s = seq![u] + list;
    if list.contains(x) {
        let i = list.index_of(x);
        assert(s[i + 1] == x);
    }
    if x == u {
        assert(s[0] == x);
    }
    if s.contains(x) {
        let i = s.index_of(x);
        if i > 0 {
            assert(list[i - 1] == x);
        }
    }
}

pub proof fn lemma_drop_contains(list: Seq<UseId>, u: UseId, x: UseId)
    requires
        list.contains(u),
        list.no_duplicates(),
    ensures
        drop_use(list, u).contains(x) <==> (x != u && list.contains(x)),
        drop_use(list, u).no_duplicates(),
        drop_use(list, u).len() == list.len() - 1,
{
    let k = list.index_of(u);
    let s = drop_use(list, u);
    assert(s =~= list.subrange(0, k) + list.subrange(k + 1, list.len() as int));
    if x != u && list.contains(x) {
        let i = list.index_of(x);
        if i < k {
            assert(s[i] == x);
        } else {
            assert(s[i - 1] == x);
        }
    }
    if s.contains(x) {
        let i = s.index_of(x);
        if i < k {
            assert(list[i] == x);
        } else {
            assert(list[i + 1] == x);
        }
    }
}

pub proof fn lemma_with_node_valid(g: GraphModel, kind: NodeKind)
    requires
        g.valid(),
        g.has_room(1, 0, 0),
    ensures
        g.with_node(kind).valid(),
{
    let h = g.with_node(kind);
    assert forall|key: Seq<u64>| #[trigger] h.cache.contains_key(key) implies h.entry_ok(key) by {
        assert(g.entry_ok(key));
        let n = NodeId(g.cache[key]);
        assert(h.ins(n) =~= g.ins(n));
        assert(h.out_kinds(n) =~= g.out_kinds(n));
    }
    assert forall|v: int| 0 <= v < h.values.len() implies #[trigger] h.value_ok(v) by {
        assert(g.value_ok(v));
    }
    assert forall|n: int, i: int|
        #![trigger h.nodes[n].inputs[i]]
        0 <= n < h.nodes.len() && 0 <= i < h.nodes[n].inputs.len() implies h.slot_ok(n, i) by {
        assert(h.nodes[n].inputs[i] == g.nodes[n].inputs[i]);
    }
    assert forall|n: int, i: int|
        #![trigger h.nodes[n].outputs[i]]
        0 <= n < h.nodes.len() && 0 <= i < h.nodes[n].outputs.len() implies h.output_ok(n, i) by {
        assert(h.nodes[n].outputs[i] == g.nodes[n].outputs[i]);
    }
    assert forall|v: int, i: int|
        #![trigger h.lists[v][i]]
        0 <= v < h.lists.len() && 0 <= i < h.lists[v].len() implies h.reader_ok(v, i) by {
        assert(g.reader_ok(v, i));
    }
}

/// Appending an input keeps the invariant, provided no cache entry speaks of
/// the node that grows.
pub proof fn lemma_with_input_valid(g: GraphModel, n: NodeId, v: ValueId)
    requires
        g.valid(),
        g.has_node(n),
        g.has_value(v),
        g.has_room(0, 1, 0),
        forall|key: Seq<u64>| #[trigger] g.cache.contains_key(key) ==> g.cache[key] != n.0,
    ensures
        g.with_input(n, v).valid(),
        g.with_input(n, v).ins(n) == g.ins(n).push(v),
        g.with_input(n, v).out_kinds(n) == g.out_kinds(n),
{
    let h = g.with_input(n, v);
    let u = UseId(g.uses.len() as u32);
    let nn = n.0 as int;
    let vv = v.0 as int;
    assert(h.lists[vv] == seq![u] + g.lists[vv]);
    assert forall|m: int| 0 <= m < h.nodes.len() implies (#[trigger] h.nodes[m]).inputs.len()
        <= h.uses.len() && h.nodes[m].outputs.len() <= h.values.len() by {
        assert(g.nodes[m].inputs.len() <= g.uses.len());
    }
    assert forall|m: int, i: int|
        #![trigger h.nodes[m].inputs[i]]
        0 <= m < h.nodes.len() && 0 <= i < h.nodes[m].inputs.len() implies h.slot_ok(m, i) by {
        if m == nn && i == g.nodes[nn].inputs.len() {
            lemma_front_contains(g.lists[vv], u, u);
        } else {
            assert(g.slot_ok(m, i)) by {
                assert(g.nodes[m].inputs[i] == h.nodes[m].inputs[i]);
            }
            let x = g.nodes[m].inputs[i];
            lemma_front_contains(g.lists[vv], u, x);
        }
    }
    assert forall|m: int, i: int|
        #![trigger h.nodes[m].outputs[i]]
        0 <= m < h.nodes.len() && 0 <= i < h.nodes[m].outputs.len() implies h.output_ok(m, i) by {
        assert(g.nodes[m].outputs[i] == h.nodes[m].outputs[i]);
    }
    assert forall|w: int| 0 <= w < h.values.len() implies #[trigger] h.value_ok(w) by {
        assert(g.value_ok(w));
    }
    assert forall|w: int, i: int|
        #![trigger h.lists[w][i]]
        0 <= w < h.lists.len() && 0 <= i < h.lists[w].len() implies h.reader_ok(w, i) by {
        if w == vv {
            if i > 0 {
                assert(h.lists[w][i] == g.lists[w][i - 1]);
                assert(g.reader_ok(w, i - 1));
            }
        } else {
            assert(g.reader_ok(w, i));
        }
    }
    assert forall|w: int| 0 <= w < h.lists.len() implies (
    #[trigger] h.lists[w]).no_duplicates() by {
        assert(g.lists[w].no_duplicates());
        if w == vv {
            assert forall|i: int, j: int|
                0 <= i < j < h.lists[w].len() implies h.lists[w][i] != h.lists[w][j] by {
                assert(h.lists[w][j] == g.lists[w][j - 1]);
                assert(g.reader_ok(w, j - 1));
                if i > 0 {
                    assert(h.lists[w][i] == g.lists[w][i - 1]);
                }
            }
        }
    }
    assert forall|key: Seq<u64>| #[trigger] h.cache.contains_key(key) implies h.entry_ok(key) by {
        assert(g.entry_ok(key));
        let m = NodeId(g.cache[key]);
        assert(h.ins(m) =~= g.ins(m)) by {
            assert forall|i: int| 0 <= i < g.slots(m).len() implies h.ins(m)[i] == g.ins(m)[i] by {
                assert(g.slot_ok(m.0 as int, i)) by {
                    assert(g.nodes[m.0 as int].inputs[i] == g.slots(m)[i]);
                }
            }
        }
        assert(h.out_kinds(m) =~= g.out_kinds(m));
    }
    assert(h.ins(n) =~= g.ins(n).push(v)) by {
        assert forall|i: int| 0 <= i < g.slots(n).len() implies h.ins(n)[i] == g.ins(n)[i] by {
            assert(g.slot_ok(nn, i)) by {
                assert(g.nodes[nn].inputs[i] == g.slots(n)[i]);
            }
        }
    }
    assert(h.out_kinds(n) =~= g.out_kinds(n));
}

/// Appending an output keeps the invariant, provided no cache entry speaks of
/// the node that grows.
pub proof fn lemma_with_output_valid(g: GraphModel, n: NodeId, kind: ValueKind)
    requires
        g.valid(),
        g.has_node(n),
        g.has_room(0, 0, 1),
        forall|key: Seq<u64>| #[trigger] g.cache.contains_key(key) ==> g.cache[key] != n.0,
    ensures
        g.with_output(n, kind).valid(),
        g.with_output(n, kind).ins(n) == g.ins(n),
        g.with_output(n, kind).out_kinds(n) == g.out_kinds(n).push(kind),
{
    let h = g.with_output(n, kind);
    let nn = n.0 as int;
    assert forall|m: int| 0 <= m < h.nodes.len() implies (#[trigger] h.nodes[m]).inputs.len()
        <= h.uses.len() && h.nodes[m].outputs.len() <= h.values.len() by {
        assert(g.nodes[m].inputs.len() <= g.uses.len());
    }
    assert forall|m: int, i: int|
        #![trigger h.nodes[m].inputs[i]]
        0 <= m < h.nodes.len() && 0 <= i < h.nodes[m].inputs.len() implies h.slot_ok(m, i) by {
        assert(g.slot_ok(m, i)) by {
            assert(g.nodes[m].inputs[i] == h.nodes[m].inputs[i]);
        }
    }
    assert forall|m: int, i: int|
        #![trigger h.nodes[m].outputs[i]]
        0 <= m < h.nodes.len() && 0 <= i < h.nodes[m].outputs.len() implies h.output_ok(m, i) by {
        if !(m == nn && i == g.nodes[nn].outputs.len()) {
            assert(g.nodes[m].outputs[i] == h.nodes[m].outputs[i]);
            assert(g.output_ok(m, i));
        }
    }
    assert forall|w: int| 0 <= w < h.values.len() implies #[trigger] h.value_ok(w) by {
        if w < g.values.len() {
            assert(g.value_ok(w));
        }
    }
    assert forall|w: int, i: int|
        #![trigger h.lists[w][i]]
        0 <= w < h.lists.len() && 0 <= i < h.lists[w].len() implies h.reader_ok(w, i) by {
        assert(g.reader_ok(w, i));
    }
    assert forall|w: int| 0 <= w < h.lists.len() implies (
    #[trigger] h.lists[w]).no_duplicates() by {
        if w < g.lists.len() {
            assert(g.lists[w].no_duplicates());
        }
    }
    assert forall|key: Seq<u64>| #[trigger] h.cache.contains_key(key) implies h.entry_ok(key) by {
        assert(g.entry_ok(key));
        let m = NodeId(g.cache[key]);
        assert(h.ins(m) =~= g.ins(m));
        assert(h.out_kinds(m) =~= g.out_kinds(m)) by {
            assert forall|i: int| 0 <= i < g.outs(m).len() implies h.out_kinds(m)[i] == g.out_kinds(
                m,
            )[i] by {
                assert(g.output_ok(m.0 as int, i)) by {
                    assert(g.nodes[m.0 as int].outputs[i] == g.outs(m)[i]);
                }
            }
        }
    }
    assert(h.ins(n) =~= g.ins(n));
    assert(h.out_kinds(n) =~= g.out_kinds(n).push(kind)) by {
        assert forall|i: int| 0 <= i < g.outs(n).len() implies h.out_kinds(n)[i] == g.out_kinds(
            n,
        )[i] by {
            assert(g.output_ok(nn, i)) by {
                assert(g.nodes[nn].outputs[i] == g.outs(n)[i]);
            }
        }
    }
}

/// After eviction the cache is still sound, and says nothing of `n` any more.
pub proof fn lemma_evicted_valid(g: GraphModel, n: NodeId)
    requires
        g.valid(),
        g.has_node(n),
    ensures
        g.evicted(n).valid(),
        forall|key: Seq<u64>|
            #[trigger] g.evicted(n).cache.contains_key(key) ==> g.evicted(n).cache[key] != n.0,
{
    let h = g.evicted(n);
    assert forall|key: Seq<u64>| #[trigger] h.cache.contains_key(key) implies h.entry_ok(key)
        && h.cache[key] != n.0 by {
        assert(g.cache.contains_key(key));
        assert(g.entry_ok(key));
        let m = NodeId(g.cache[key]);
        assert(h.ins(m) =~= g.ins(m));
        assert(h.out_kinds(m) =~= g.out_kinds(m));
        if m == n {
            assert(g.key(n) == key);
        }
    }
    assert forall|w: int| 0 <= w < h.values.len() implies #[trigger] h.value_ok(w) by {
        assert(g.value_ok(w));
    }
    assert forall|m: int, i: int|
        #![trigger h.nodes[m].inputs[i]]
        0 <= m < h.nodes.len() && 0 <= i < h.nodes[m].inputs.len() implies h.slot_ok(m, i) by {
        assert(g.slot_ok(m, i)) by {
            assert(g.nodes[m].inputs[i] == h.nodes[m].inputs[i]);
        }
    }
    assert forall|m: int, i: int|
        #![trigger h.nodes[m].outputs[i]]
        0 <= m < h.nodes.len() && 0 <= i < h.nodes[m].outputs.len() implies h.output_ok(m, i) by {
        assert(g.output_ok(m, i)) by {
            assert(g.nodes[m].outputs[i] == h.nodes[m].outputs[i]);
        }
    }
    assert forall|v: int, i: int|
        #![trigger h.lists[v][i]]
        0 <= v < h.lists.len() && 0 <= i < h.lists[v].len() implies h.reader_ok(v, i) by {
        assert(g.reader_ok(v, i));
    }
}

/// Redirecting a slot keeps the invariant and changes that input alone.
pub proof fn lemma_redirected_valid(g: GraphModel, u: UseId, v: ValueId)
    requires
        g.valid(),
        g.has_use(u),
        g.attached(u),
        g.has_value(v),
    ensures
        g.redirected(u, v).valid(),
        g.redirected(u, v).uses.len() == g.uses.len(),
        g.redirected(u, v).nodes == g.nodes,
        g.redirected(u, v).values == g.values,
        forall|x: int|
            0 <= x < g.uses.len() && x != u.0 ==> #[trigger] g.redirected(u, v).uses[x]
                == g.uses[x],
        g.redirected(u, v).uses[u.0 as int].value == v,
        g.redirected(u, v).uses[u.0 as int].node == g.uses[u.0 as int].node,
        g.redirected(u, v).uses[u.0 as int].index == g.uses[u.0 as int].index,
{
    let n = g.uses[u.0 as int].node;
    let old_v = g.uses[u.0 as int].value;
    if old_v != v {
        lemma_evicted_valid(g, n);
        let e = g.evicted(n);
        let h = g.redirected(u, v);
        let pos = g.uses[u.0 as int].index as int;
        assert(g.slot_ok(n.0 as int, pos)) by {
            assert(g.nodes[n.0 as int].inputs[pos] == u);
        }
        assert(h.lists[old_v.0 as int] == drop_use(g.lists[old_v.0 as int], u));
        assert(h.lists[v.0 as int] == seq![u] + g.lists[v.0 as int]);
        assert(!g.lists[v.0 as int].contains(u)) by {
            if g.lists[v.0 as int].contains(u) {
                let i = g.lists[v.0 as int].index_of(u);
                assert(g.lists[v.0 as int][i] == u);
                assert(g.reader_ok(v.0 as int, i));
            }
        }
        lemma_drop_contains(g.lists[old_v.0 as int], u, u);
        assert forall|m: int, i: int|
            #![trigger h.nodes[m].inputs[i]]
            0 <= m < h.nodes.len() && 0 <= i < h.nodes[m].inputs.len() implies h.slot_ok(m, i) by {
            let x = g.nodes[m].inputs[i];
            assert(g.slot_ok(m, i));
            lemma_front_contains(g.lists[v.0 as int], u, x);
            lemma_drop_contains(g.lists[old_v.0 as int], u, x);
        }
        assert forall|m: int, i: int|
            #![trigger h.nodes[m].outputs[i]]
            0 <= m < h.nodes.len() && 0 <= i < h.nodes[m].outputs.len() implies h.output_ok(
            m,
            i,
        ) by {
            assert(g.output_ok(m, i)) by {
                assert(g.nodes[m].outputs[i] == h.nodes[m].outputs[i]);
            }
        }
        assert forall|w: int| 0 <= w < h.values.len() implies #[trigger] h.value_ok(w) by {
            assert(g.value_ok(w));
        }
        assert forall|w: int, i: int|
            #![trigger h.lists[w][i]]
            0 <= w < h.lists.len() && 0 <= i < h.lists[w].len() implies h.reader_ok(w, i) by {
            let x = h.lists[w][i];
            assert(h.lists[w].contains(x));
            if w == v.0 {
                if i > 0 {
                    assert(x == g.lists[w][i - 1]);
                    assert(g.reader_ok(w, i - 1));
                }
            } else if w == old_v.0 {
                lemma_drop_contains(g.lists[w], u, x);
                let j = g.lists[w].index_of(x);
                assert(g.lists[w][j] == x);
                assert(g.reader_ok(w, j));
            } else {
                assert(g.reader_ok(w, i));
            }
        }
        assert forall|w: int| 0 <= w < h.lists.len() implies (
        #[trigger] h.lists[w]).no_duplicates() by {
            assert(g.lists[w].no_duplicates());
            if w == v.0 {
                let new = h.lists[w];
                assert forall|i: int, j: int| 0 <= i < j < new.len() implies new[i] != new[j] by {
                    assert(new[j] == g.lists[w][j - 1]);
                    if i > 0 {
                        assert(new[i] == g.lists[w][i - 1]);
                    }
                }
            }
        }
        assert forall|key: Seq<u64>| #[trigger] h.cache.contains_key(key) implies h.entry_ok(
            key,
        ) by {
            assert(e.cache.contains_key(key));
            assert(g.cache.contains_key(key));
            assert(g.entry_ok(key));
            let m = NodeId(g.cache[key]);
            assert(m != n);
            assert(h.ins(m) =~= g.ins(m)) by {
                assert forall|i: int| 0 <= i < g.slots(m).len() implies h.ins(m)[i] == g.ins(
                    m,
                )[i] by {
                    assert(g.slot_ok(m.0 as int, i)) by {
                        assert(g.nodes[m.0 as int].inputs[i] == g.slots(m)[i]);
                    }
                }
            }
            assert(h.out_kinds(m) =~= g.out_kinds(m));
        }
    }
}

/// Taking out an input of a node that is not shared keeps the invariant, and
/// the other inputs keep their order.
pub proof fn lemma_without_input_valid(g: GraphModel, n: NodeId, i: int)
    requires
        g.valid(),
        g.has_node(n),
        0 <= i < g.slots(n).len(),
        !g.kind(n).cacheable(),
    ensures
        g.without_input(n, i).valid(),
        g.without_input(n, i).ins(n) == g.ins(n).remove(i),
{
    let h = g.without_input(n, i);
    let nn = n.0 as int;
    let u = g.slots(n)[i];
    assert(g.slot_ok(nn, i)) by {
        assert(g.nodes[nn].inputs[i] == u);
    }
    let v = g.uses[u.0 as int].value.0 as int;
    lemma_drop_contains(g.lists[v], u, u);
    assert forall|x: int| 0 <= x < g.uses.len() implies (#[trigger] h.uses[x]).value
        == g.uses[x].value && h.uses[x].node == g.uses[x].node by {}
    assert forall|m: int| 0 <= m < h.nodes.len() implies (#[trigger] h.nodes[m]).inputs.len()
        <= h.uses.len() && h.nodes[m].outputs.len() <= h.values.len() by {
        assert(g.nodes[m].inputs.len() <= g.uses.len());
    }
    assert forall|m: int, j: int|
        #![trigger h.nodes[m].inputs[j]]
        0 <= m < h.nodes.len() && 0 <= j < h.nodes[m].inputs.len() implies h.slot_ok(m, j) by {
        let jj = if m == nn && j >= i {
            j + 1
        } else {
            j
        };
        assert(h.nodes[m].inputs[j] == g.nodes[m].inputs[jj]);
        assert(g.slot_ok(m, jj));
        let x = g.nodes[m].inputs[jj];
        lemma_drop_contains(g.lists[v], u, x);
        assert(UseId(x.0 as int as u32) == x);
        if m == nn && jj > i {
            assert(g.attached(x));
            assert(g.follows(x.0 as int, n, i));
        }
    }
    assert forall|m: int, j: int|
        #![trigger h.nodes[m].outputs[j]]
        0 <= m < h.nodes.len() && 0 <= j < h.nodes[m].outputs.len() implies h.output_ok(m, j) by {
        assert(g.output_ok(m, j)) by {
            assert(g.nodes[m].outputs[j] == h.nodes[m].outputs[j]);
        }
    }
    assert forall|w: int| 0 <= w < h.values.len() implies #[trigger] h.value_ok(w) by {
        assert(g.value_ok(w));
    }
    assert forall|w: int, j: int|
        #![trigger h.lists[w][j]]
        0 <= w < h.lists.len() && 0 <= j < h.lists[w].len() implies h.reader_ok(w, j) by {
        let x = h.lists[w][j];
        assert(h.lists[w].contains(x));
        if w == v {
            lemma_drop_contains(g.lists[w], u, x);
        }
        assert(g.lists[w].contains(x));
        let k = g.lists[w].index_of(x);
        assert(g.lists[w][k] == x);
        assert(g.reader_ok(w, k));
        assert(UseId(x.0 as int as u32) == x);
        let m = g.uses[x.0 as int].node;
        let p = g.uses[x.0 as int].index as int;
        assert(x != u) by {
            if x == u {
                assert(w == v);
            }
        }
        if m == n {
            if p > i {
                assert(g.follows(x.0 as int, n, i));
                assert(h.slots(n)[p - 1] == g.slots(n)[p]);
            } else {
                assert(p != i);
                assert(!g.follows(x.0 as int, n, i));
                assert(h.slots(n)[p] == g.slots(n)[p]);
            }
        }
    }
    assert forall|w: int| 0 <= w < h.lists.len() implies (
    #[trigger] h.lists[w]).no_duplicates() by {
        assert(g.lists[w].no_duplicates());
    }
    assert forall|key: Seq<u64>| #[trigger] h.cache.contains_key(key) implies h.entry_ok(key) by {
        assert(g.entry_ok(key));
        let m = NodeId(g.cache[key]);
        assert(m != n);
        assert(h.ins(m) =~= g.ins(m)) by {
            assert forall|j: int| 0 <= j < g.slots(m).len() implies h.ins(m)[j] == g.ins(m)[j] by {
                assert(g.slot_ok(m.0 as int, j)) by {
                    assert(g.nodes[m.0 as int].inputs[j] == g.slots(m)[j]);
                }
            }
        }
        assert(h.out_kinds(m) =~= g.out_kinds(m));
    }
    assert(h.ins(n) =~= g.ins(n).remove(i)) by {
        assert forall|j: int| 0 <= j < h.slots(n).len() implies h.ins(n)[j] == g.ins(n).remove(
            i,
        )[j] by {
            let jj = if j >= i {
                j + 1
            } else {
                j
            };
            assert(h.slots(n)[j] == g.slots(n)[jj]);
            assert(g.slot_ok(nn, jj)) by {
                assert(g.nodes[nn].inputs[jj] == g.slots(n)[jj]);
            }
        }
    }
}

/// Slots that are each in their list, no slot twice.
pub open spec fn all_listed(g: GraphModel, us: Seq<UseId>) -> bool {
    &&& us.no_duplicates()
    &&& forall|i: int|
        0 <= i < us.len() ==> g.has_use(#[trigger] us[i]) && g.has_value(
            g.uses[us[i].0 as int].value,
        ) && g.readers(g.uses[us[i].0 as int].value).contains(us[i])
}

/// Taking slots out of their lists leaves exactly the other slots there.
pub proof fn lemma_unlinked_all(g: GraphModel, us: Seq<UseId>)
    requires
        all_listed(g, us),
        forall|v: int| 0 <= v < g.lists.len() ==> (#[trigger] g.lists[v]).no_duplicates(),
        forall|v: int, i: int|
            #![trigger g.lists[v][i]]
            0 <= v < g.lists.len() && 0 <= i < g.lists[v].len() ==> g.reader_ok(v, i),
        g.lists.len() == g.values.len(),
    ensures
        g.unlinked_all(us) == (GraphModel { lists: g.unlinked_all(us).lists, ..g }),
        g.unlinked_all(us).lists.len() == g.lists.len(),
        forall|v: int|
            0 <= v < g.lists.len() ==> (#[trigger] g.unlinked_all(us).lists[v]).no_duplicates(),
        forall|v: int, x: UseId|
            #![trigger g.unlinked_all(us).lists[v].contains(x)]
            0 <= v < g.lists.len() ==> (g.unlinked_all(us).lists[v].contains(x) <==> (
            g.lists[v].contains(x) && !us.contains(x))),
    decreases us.len(),
{
    if us.len() > 0 {
        let rest = us.drop_last();
        let u = us.last();
        assert(all_listed(g, rest)) by {
            assert forall|i: int| 0 <= i < rest.len() implies g.has_use(#[trigger] rest[i])
                && g.has_value(g.uses[rest[i].0 as int].value) && g.readers(
                g.uses[rest[i].0 as int].value,
            ).contains(rest[i]) by {
                assert(rest[i] == us[i]);
            }
        }
        lemma_unlinked_all(g, rest);
        let m = g.unlinked_all(rest);
        let h = g.unlinked_all(us);
        let v = g.uses[u.0 as int].value.0 as int;
        assert(us[us.len() - 1] == u);
        assert(!rest.contains(u)) by {
            if rest.contains(u) {
                let i = rest.index_of(u);
                assert(us[i] == us[us.len() - 1]);
            }
        }
        assert(m.lists[v].contains(u));
        lemma_drop_contains(m.lists[v], u, u);
        assert forall|w: int, x: UseId|
            #![trigger h.lists[w].contains(x)]
            0 <= w < g.lists.len() implies (h.lists[w].contains(x) <==> (g.lists[w].contains(x)
            && !us.contains(x))) by {
            assert(us.contains(x) <==> (rest.contains(x) || x == u)) by {
                if us.contains(x) {
                    let i = us.index_of(x);
                    if i < us.len() - 1 {
                        assert(rest[i] == x);
                    }
                }
                if rest.contains(x) {
                    let i = rest.index_of(x);
                    assert(us[i] == x);
                }
            }
            if w == v {
                lemma_drop_contains(m.lists[v], u, x);
            } else if x == u {
                if g.lists[w].contains(u) {
                    let i = g.lists[w].index_of(u);
                    assert(g.lists[w][i] == u);
                    assert(g.reader_ok(w, i));
                }
            }
            assert(m.lists[w].contains(x) <==> (g.lists[w].contains(x) && !rest.contains(x)));
        }
        assert forall|w: int| 0 <= w < g.lists.len() implies (
        #[trigger] h.lists[w]).no_duplicates() by {
            assert(m.lists[w].no_duplicates());
        }
    } else {
        assert forall|w: int, x: UseId|
            #![trigger g.unlinked_all(us).lists[w].contains(x)]
            0 <= w < g.lists.len() implies (g.unlinked_all(us).lists[w].contains(x) <==> (
        g.lists[w].contains(x) && !us.contains(x))) by {}
    }
}

/// The slots of a node are each in their list, no slot twice.
pub proof fn lemma_slots_listed(g: GraphModel, n: NodeId)
    requires
        g.valid(),
        g.has_node(n),
    ensures
        all_listed(g, g.slots(n)),
{
    let us = g.slots(n);
    assert forall|i: int| 0 <= i < us.len() implies g.has_use(#[trigger] us[i]) && g.has_value(
        g.uses[us[i].0 as int].value,
    ) && g.readers(g.uses[us[i].0 as int].value).contains(us[i]) by {
        assert(g.slot_ok(n.0 as int, i)) by {
            assert(g.nodes[n.0 as int].inputs[i] == us[i]);
        }
    }
    assert forall|i: int, j: int| 0 <= i < j < us.len() implies us[i] != us[j] by {
        assert(g.slot_ok(n.0 as int, i)) by {
            assert(g.nodes[n.0 as int].inputs[i] == us[i]);
        }
        assert(g.slot_ok(n.0 as int, j)) by {
            assert(g.nodes[n.0 as int].inputs[j] == us[j]);
        }
    }
}

/// Detaching keeps the invariant, and the cache says nothing of the node.
pub proof fn lemma_detached_valid(g: GraphModel, n: NodeId)
    requires
        g.valid(),
        g.has_node(n),
    ensures
        g.detached(n).valid(),
        g.detached(n).values == g.values,
        g.detached(n).uses == g.uses,
        g.detached(n).nodes == g.nodes.update(
            n.0 as int,
            NodeModel { inputs: Seq::empty(), ..g.nodes[n.0 as int] },
        ),
        forall|v: int, x: UseId|
            #![trigger g.detached(n).lists[v].contains(x)]
            0 <= v < g.lists.len() ==> (g.detached(n).lists[v].contains(x) <==> (
            g.lists[v].contains(x) && g.uses[x.0 as int].node != n)),
        forall|key: Seq<u64>|
            #[trigger] g.detached(n).cache.contains_key(key) ==> g.detached(n).cache[key] != n.0,
{
    lemma_evicted_valid(g, n);
    let e = g.evicted(n);
    let us = g.slots(n);
    lemma_slots_listed(e, n);
    assert(e.slots(n) == us);
    lemma_unlinked_all(e, us);
    let m = e.unlinked_all(us);
    let h = g.detached(n);
    assert(h.lists == m.lists);
    assert forall|v: int, x: UseId|
        #![trigger h.lists[v].contains(x)]
        0 <= v < g.lists.len() implies (h.lists[v].contains(x) <==> (g.lists[v].contains(x)
        && g.uses[x.0 as int].node != n)) by {
        assert(m.lists[v].contains(x) <==> (e.lists[v].contains(x) && !us.contains(x)));
        if g.lists[v].contains(x) {
            let i = g.lists[v].index_of(x);
            assert(g.lists[v][i] == x);
            assert(g.reader_ok(v, i));
            if g.uses[x.0 as int].node == n {
                assert(us[g.uses[x.0 as int].index as int] == x);
                assert(us.contains(x));
            }
            if us.contains(x) {
                let j = us.index_of(x);
                assert(g.slot_ok(n.0 as int, j)) by {
                    assert(g.nodes[n.0 as int].inputs[j] == x);
                }
            }
        }
    }
    assert forall|p: int| 0 <= p < h.nodes.len() implies (#[trigger] h.nodes[p]).inputs.len()
        <= h.uses.len() && h.nodes[p].outputs.len() <= h.values.len() by {
        assert(g.nodes[p].inputs.len() <= g.uses.len());
    }
    assert forall|p: int, i: int|
        #![trigger h.nodes[p].inputs[i]]
        0 <= p < h.nodes.len() && 0 <= i < h.nodes[p].inputs.len() implies h.slot_ok(p, i) by {
        assert(g.slot_ok(p, i)) by {
            assert(g.nodes[p].inputs[i] == h.nodes[p].inputs[i]);
        }
        let x = g.nodes[p].inputs[i];
        let w = g.uses[x.0 as int].value.0 as int;
        assert(h.lists[w].contains(x));
    }
    assert forall|p: int, i: int|
        #![trigger h.nodes[p].outputs[i]]
        0 <= p < h.nodes.len() && 0 <= i < h.nodes[p].outputs.len() implies h.output_ok(p, i) by {
        assert(g.output_ok(p, i)) by {
            assert(g.nodes[p].outputs[i] == h.nodes[p].outputs[i]);
        }
    }
    assert forall|w: int| 0 <= w < h.values.len() implies #[trigger] h.value_ok(w) by {
        assert(g.value_ok(w));
    }
    assert forall|w: int, i: int|
        #![trigger h.lists[w][i]]
        0 <= w < h.lists.len() && 0 <= i < h.lists[w].len() implies h.reader_ok(w, i) by {
        let x = h.lists[w][i];
        assert(h.lists[w].contains(x));
        assert(g.lists[w].contains(x));
        let j = g.lists[w].index_of(x);
        assert(g.lists[w][j] == x);
        assert(g.reader_ok(w, j));
    }
    assert forall|w: int| 0 <= w < h.lists.len() implies (
    #[trigger] h.lists[w]).no_duplicates() by {
        assert(m.lists[w].no_duplicates());
    }
    assert forall|key: Seq<u64>| #[trigger] h.cache.contains_key(key) implies h.entry_ok(key)
        && h.cache[key] != n.0 by {
        assert(e.cache.contains_key(key));
        assert(e.entry_ok(key));
        let p = NodeId(e.cache[key]);
        assert(p != n);
        assert(h.ins(p) =~= e.ins(p));
        assert(h.out_kinds(p) =~= e.out_kinds(p));
    }
}

/// Only the cache of a graph matters beside the rest of the invariant.
pub proof fn lemma_new_cache_valid(g: GraphModel, cache: Map<Seq<u64>, u32>)
    requires
        g.valid(),
        forall|key: Seq<u64>|
            #[trigger] cache.contains_key(key) ==> {
                let n = NodeId(cache[key]);
                g.has_node(n) && g.kind(n).cacheable() && g.key(n) == key
            },
    ensures
        (GraphModel { cache, ..g }).valid(),
{
    let h = GraphModel { cache, ..g };
    assert forall|key: Seq<u64>| #[trigger] h.cache.contains_key(key) implies h.entry_ok(key) by {
        let m = NodeId(cache[key]);
        assert(h.ins(m) =~= g.ins(m));
        assert(h.out_kinds(m) =~= g.out_kinds(m));
    }
    assert forall|w: int| 0 <= w < h.values.len() implies #[trigger] h.value_ok(w) by {
        assert(g.value_ok(w));
    }
    assert forall|m: int, i: int|
        #![trigger h.nodes[m].inputs[i]]
        0 <= m < h.nodes.len() && 0 <= i < h.nodes[m].inputs.len() implies h.slot_ok(m, i) by {
        assert(g.slot_ok(m, i)) by {
            assert(g.nodes[m].inputs[i] == h.nodes[m].inputs[i]);
        }
    }
    assert forall|m: int, i: int|
        #![trigger h.nodes[m].outputs[i]]
        0 <= m < h.nodes.len() && 0 <= i < h.nodes[m].outputs.len() implies h.output_ok(m, i) by {
        assert(g.output_ok(m, i)) by {
            assert(g.nodes[m].outputs[i] == h.nodes[m].outputs[i]);
        }
    }
    assert forall|v: int, i: int|
        #![trigger h.lists[v][i]]
        0 <= v < h.lists.len() && 0 <= i < h.lists[v].len() implies h.reader_ok(v, i) by {
        assert(g.reader_ok(v, i));
    }
}

/// Entering a shared node into the cache keeps the invariant.
pub proof fn lemma_cached_valid(g: GraphModel, n: NodeId)
    requires
        g.valid(),
        g.has_node(n),
        g.kind(n).cacheable(),
    ensures
        g.cached(n).valid(),
{
    let cache = g.cache.insert(g.key(n), n.0);
    assert forall|key: Seq<u64>| #[trigger] cache.contains_key(key) implies {
        let m = NodeId(cache[key]);
        g.has_node(m) && g.kind(m).cacheable() && g.key(m) == key
    } by {
        if key != g.key(n) {
            assert(g.cache.contains_key(key));
            assert(g.entry_ok(key));
        } else {
            assert(NodeId(cache[key]) == n);
        }
    }
    lemma_new_cache_valid(g, cache);
}

/// The cache built from the first nodes holds their structures and no others,
/// each under the last node that has it.
pub proof fn lemma_cache_of_first(g: GraphModel, k: nat)
    requires
        k <= g.nodes.len() <= u32::MAX,
    ensures
        forall|key: Seq<u64>|
            #[trigger] g.cache_of_first(k).contains_key(key) ==> {
                let n = NodeId(g.cache_of_first(k)[key]);
                n.0 < k && g.kind(n).cacheable() && g.key(n) == key
            },
        forall|i: int|
            0 <= i < k && (#[trigger] g.kind(NodeId(i as u32))).cacheable()
                ==> g.cache_of_first(k).contains_key(g.key(NodeId(i as u32)))
                && g.cache_of_first(k)[g.key(NodeId(i as u32))] >= i,
    decreases k,
{
    if k > 0 {
        lemma_cache_of_first(g, (k - 1) as nat);
        let last = NodeId((k - 1) as u32);
        let rest = g.cache_of_first((k - 1) as nat);
        let whole = g.cache_of_first(k);
        assert forall|i: int|
            0 <= i < k && (#[trigger] g.kind(NodeId(i as u32))).cacheable() implies whole.contains_key(
            g.key(NodeId(i as u32)),
        ) && whole[g.key(NodeId(i as u32))] >= i by {
            if i < k - 1 {
                assert(rest.contains_key(g.key(NodeId(i as u32))));
            }
        }
        assert forall|key: Seq<u64>| #[trigger] whole.contains_key(key) implies {
            let n = NodeId(whole[key]);
            n.0 < k && g.kind(n).cacheable() && g.key(n) == key
        } by {
            if !(g.kind(last).cacheable() && key == g.key(last)) {
                assert(rest.contains_key(key));
            }
        }
    }
}

/// A node of a graph reads and defines the same in an extension.
pub proof fn lemma_extends_node(h: GraphModel, g: GraphModel, n: NodeId)
    requires
        g.valid(),
        h.extends(g),
        g.has_node(n),
    ensures
        h.kind(n) == g.kind(n),
        h.slots(n) == g.slots(n),
        h.outs(n) == g.outs(n),
        h.ins(n) == g.ins(n),
        h.out_kinds(n) == g.out_kinds(n),
{
    assert(h.nodes[n.0 as int] == g.nodes[n.0 as int]);
    assert(h.ins(n) =~= g.ins(n)) by {
        assert forall|i: int| 0 <= i < g.slots(n).len() implies h.ins(n)[i] == g.ins(n)[i] by {
            assert(g.slot_ok(n.0 as int, i)) by {
                assert(g.nodes[n.0 as int].inputs[i] == g.slots(n)[i]);
            }
        }
    }
    assert(h.out_kinds(n) =~= g.out_kinds(n)) by {
        assert forall|i: int| 0 <= i < g.outs(n).len() implies h.out_kinds(n)[i] == g.out_kinds(
            n,
        )[i] by {
            assert(g.output_ok(n.0 as int, i)) by {
                assert(g.nodes[n.0 as int].outputs[i] == g.outs(n)[i]);
            }
        }
    }
}

/// Changing the kind of a node the cache says nothing of keeps the invariant.
pub proof fn lemma_with_kind_valid(g: GraphModel, n: NodeId, kind: NodeKind)
    requires
        g.valid(),
        g.has_node(n),
        forall|key: Seq<u64>| #[trigger] g.cache.contains_key(key) ==> g.cache[key] != n.0,
    ensures
        g.with_kind(n, kind).valid(),
        forall|m: NodeId|
            g.has_node(m) ==> #[trigger] g.with_kind(n, kind).ins(m) == g.ins(m),
        forall|m: NodeId|
            g.has_node(m) ==> #[trigger] g.with_kind(n, kind).out_kinds(m) == g.out_kinds(m),
{
    let h = g.with_kind(n, kind);
    assert forall|m: NodeId| g.has_node(m) implies #[trigger] h.ins(m) == g.ins(m) by {
        assert(h.ins(m) =~= g.ins(m));
    }
    assert forall|m: NodeId| g.has_node(m) implies #[trigger] h.out_kinds(m) == g.out_kinds(
        m,
    ) by {
        assert(h.out_kinds(m) =~= g.out_kinds(m));
    }
    assert forall|p: int| 0 <= p < h.nodes.len() implies (#[trigger] h.nodes[p]).inputs.len()
        <= h.uses.len() && h.nodes[p].outputs.len() <= h.values.len() by {
        assert(g.nodes[p].inputs.len() <= g.uses.len());
    }
    assert forall|key: Seq<u64>| #[trigger] h.cache.contains_key(key) implies h.entry_ok(key) by {
        assert(g.entry_ok(key));
    }
    assert forall|w: int| 0 <= w < h.values.len() implies #[trigger] h.value_ok(w) by {
        assert(g.value_ok(w));
    }
    assert forall|m: int, i: int|
        #![trigger h.nodes[m].inputs[i]]
        0 <= m < h.nodes.len() && 0 <= i < h.nodes[m].inputs.len() implies h.slot_ok(m, i) by {
        assert(g.slot_ok(m, i)) by {
            assert(g.nodes[m].inputs[i] == h.nodes[m].inputs[i]);
        }
    }
    assert forall|m: int, i: int|
        #![trigger h.nodes[m].outputs[i]]
        0 <= m < h.nodes.len() && 0 <= i < h.nodes[m].outputs.len() implies h.output_ok(m, i) by {
        assert(g.output_ok(m, i)) by {
            assert(g.nodes[m].outputs[i] == h.nodes[m].outputs[i]);
        }
    }
    assert forall|v: int, i: int|
        #![trigger h.lists[v][i]]
        0 <= v < h.lists.len() && 0 <= i < h.lists[v].len() implies h.reader_ok(v, i) by {
        assert(g.reader_ok(v, i));
    }
}

} // verus!
