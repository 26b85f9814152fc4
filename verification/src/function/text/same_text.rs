//! Functions that look alike print the same text; compaction and copying leave
//! it unchanged.

use super::alike::{graph_alike, law_print_order_reachable, law_print_order_alike, node_alike, Renaming};
use super::order::{known, lemma_known_producer, nodes_of};
use super::orderer::print_order;
use super::render::{
    arg_lines, carried, fingerprint_text, header_text, index_count, inputs_text, lemma_printed,
    line_text, lines_text, lists_numbers, numbers_of, op_text, output_text, outputs_text, payload,
    printed, value_number,
};
use crate::function::func::{compacted, compaction_of, same_meaning, Function};
use crate::function::side_tables::{
    ascending, kept_values, lemma_ascending_unique, remapped, ArgClass,
};
use crate::graph::compact::{kept_node, NodeIdRemap};
use crate::graph::model::GraphModel;
use crate::graph::walk::{lemma_reachable_node, lemma_reachable_step, reachable};
use crate::node::{NodeId, NodeKind, ValueId, ValueKind};
use vstd::prelude::*;

verus! {

/// What stands at a place of a table, if anything.
pub open spec fn entry_at<T>(s: Seq<T>, i: nat) -> Option<T> {
    if i < s.len() {
        Some(s[i as int])
    } else {
        None
    }
}

/// Node `n` of `a` and node `m` of `b` have the same kind, payload ids standing
/// for the same things.
pub open spec fn kind_alike(a: &Function, b: &Function, n: NodeId, m: NodeId) -> bool {
    match (a.g().kind(n), b.g().kind(m)) {
        (NodeKind::IntConst(x), NodeKind::IntConst(y)) => entry_at(a.consts(), x.0 as nat)
            == entry_at(b.consts(), y.0 as nat),
        (NodeKind::Switch(x), NodeKind::Switch(y)) => entry_at(a.switches(), x.0 as nat)
            == entry_at(b.switches(), y.0 as nat),
        (NodeKind::Call { cc: Some(x) }, NodeKind::Call { cc: Some(y) }) => entry_at(
            a.ccs(),
            x.0 as nat,
        ) == entry_at(b.ccs(), y.0 as nat),
        (p, q) => p == q,
    }
}

/// Functions that differ in nothing but ids, beside what cannot be reached.
pub open spec fn function_alike(a: &Function, b: &Function, r: Renaming) -> bool {
    let g = a.g();
    let entry = a.entry_node();
    &&& r.node(entry) == b.entry_node()
    &&& a.endian() == b.endian()
    &&& a.vns() == b.vns()
    &&& a.cc_default()@ == b.cc_default()@
    &&& graph_alike(g, b.g(), entry, r)
    &&& forall|n: NodeId|
        #[trigger] known(g, entry, n) ==> {
            &&& kind_alike(a, b, n, r.node(n))
            &&& a.user_op_name(n) == b.user_op_name(r.node(n))
            &&& a.tables().fingerprint(n) == b.tables().fingerprint(r.node(n))
        }
    &&& forall|v: ValueId|
        #[trigger] reached(g, entry, v) ==> a.tables().vn_of(v) == b.tables().vn_of(r.value(v))
    &&& forall|v: ValueId, c: ArgClass, i: u32|
        #![trigger reached(g, entry, v), a.tables().carriers(c, i)]
        reached(g, entry, v) ==> (a.tables().carriers(c, i).contains(v) <==> b.tables().carriers(
            c,
            i,
        ).contains(r.value(v)))
}

/// A value of a node that can be reached.
pub open spec fn reached(g: GraphModel, entry: NodeId, v: ValueId) -> bool {
    g.has_value(v) && known(g, entry, g.producer(v))
}

proof fn lemma_value_injective(
    g: GraphModel,
    h: GraphModel,
    entry: NodeId,
    r: Renaming,
    v: ValueId,
    w: ValueId,
)
    requires
        g.valid(),
        h.valid(),
        graph_alike(g, h, entry, r),
        reached(g, entry, v),
        reached(g, entry, w),
        r.value(v) == r.value(w),
    ensures
        v == w,
{
    let (a, b) = (g.producer(v), g.producer(w));
    assert(g.value_ok(v.0 as int) && g.value_ok(w.0 as int));
    let i = g.values[v.0 as int].index as int;
    let j = g.values[w.0 as int].index as int;
    assert(g.outs(a)[i] == v && g.outs(b)[j] == w);
    assert(node_alike(g, h, r, a) && node_alike(g, h, r, b));
    assert(h.outs(r.node(a))[i] == r.value(v));
    assert(h.outs(r.node(b))[j] == r.value(w));
    assert(h.nodes[r.node(a).0 as int].outputs[i] == r.value(v));
    assert(h.nodes[r.node(b).0 as int].outputs[j] == r.value(w));
    assert(h.output_ok(r.node(a).0 as int, i) && h.output_ok(r.node(b).0 as int, j));
    assert(r.node(a) == r.node(b));
    assert(a == b);
}

proof fn lemma_printed_alike(
    g: GraphModel,
    h: GraphModel,
    entry: NodeId,
    r: Renaming,
    order: Seq<NodeId>,
)
    requires
        graph_alike(g, h, entry, r),
        forall|i: int| 0 <= i < order.len() ==> known(g, entry, #[trigger] order[i]),
    ensures
        printed(h, r.all(order)) == r.all_values(printed(g, order)),
    decreases order.len(),
{
    if order.len() > 0 {
        let rest = order.drop_last();
        assert forall|i: int| 0 <= i < rest.len() implies known(g, entry, #[trigger] rest[i]) by {
            assert(rest[i] == order[i]);
        }
        lemma_printed_alike(g, h, entry, r, rest);
        assert(r.all(order).drop_last() =~= r.all(rest));
        assert(known(g, entry, order[order.len() - 1]));
        assert(node_alike(g, h, r, order.last()));
    }
    assert(printed(h, r.all(order)) =~= r.all_values(printed(g, order)));
}

/// An order in which a graph prints.
spec fn lists_known(g: GraphModel, entry: NodeId, order: Seq<NodeId>) -> bool {
    &&& order.no_duplicates()
    &&& forall|i: int| 0 <= i < order.len() ==> known(g, entry, #[trigger] order[i])
}

proof fn lemma_printed_reached(g: GraphModel, entry: NodeId, order: Seq<NodeId>)
    requires
        g.valid(),
        lists_known(g, entry, order),
    ensures
        printed(g, order).no_duplicates(),
        printed(g, order).len() <= u32::MAX,
        forall|k: int|
            0 <= k < printed(g, order).len() ==> reached(g, entry, #[trigger] printed(g, order)[k]),
{
    assert forall|i: int| 0 <= i < order.len() implies g.has_node(#[trigger] order[i]) by {
        assert(known(g, entry, order[i]));
    }
    lemma_printed(g, order);
    let ps = printed(g, order);
    assert forall|k: int| 0 <= k < ps.len() implies reached(g, entry, #[trigger] ps[k]) by {
        let x = order.index_of(g.producer(ps[k]));
        assert(known(g, entry, order[x]));
    }
}

proof fn lemma_number_alike(
    g: GraphModel,
    h: GraphModel,
    entry: NodeId,
    r: Renaming,
    order: Seq<NodeId>,
    v: ValueId,
)
    requires
        g.valid(),
        h.valid(),
        graph_alike(g, h, entry, r),
        lists_known(g, entry, order),
        reached(g, entry, v),
    ensures
        value_number(h, r.all(order), r.value(v)) == value_number(g, order, v),
{
    lemma_printed_alike(g, h, entry, r, order);
    lemma_printed_reached(g, entry, order);
    let p = printed(g, order);
    let q = printed(h, r.all(order));
    if p.contains(v) {
        let i = p.index_of(v);
        assert(q[i] == r.value(v));
    }
    if q.contains(r.value(v)) {
        let j = q.index_of(r.value(v));
        assert(reached(g, entry, p[j]));
        lemma_value_injective(g, h, entry, r, p[j], v);
        assert(p.index_of(v) == j);
    }
}

proof fn lemma_inserted(s: Seq<u64>, x: u64) -> (t: Seq<u64>)
    requires
        ascending(s),
        !s.contains(x),
    ensures
        ascending(t),
        forall|y: u64| #[trigger] t.contains(y) <==> s.contains(y) || y == x,
    decreases s.len(),
{
    if s.len() == 0 || s.last() < x {
        let t = s.push(x);
        assert forall|y: u64| #[trigger] t.contains(y) <==> s.contains(y) || y == x by {
            crate::entity_set::lemma_push_member(s, x, y);
        }
        t
    } else {
        let rest = s.drop_last();
        let last = s.last();
        assert(s =~= rest.push(last));
        assert forall|y: u64| #[trigger] s.contains(y) <==> rest.contains(y) || y == last by {
            crate::entity_set::lemma_push_member(rest, last, y);
        }
        let u = lemma_inserted(rest, x);
        let t = u.push(last);
        assert forall|y: u64| #[trigger] t.contains(y) <==> s.contains(y) || y == x by {
            crate::entity_set::lemma_push_member(u, last, y);
        }
        assert forall|i: int, j: int| 0 <= i < j < t.len() implies t[i] < t[j] by {
            if j == u.len() {
                assert(u.contains(u[i]));
                if u[i] != x {
                    let k = rest.index_of(u[i]);
                    assert(s[k] < s[s.len() - 1]);
                } else {
                    assert(s.contains(s[s.len() - 1]));
                }
            }
        }
        t
    }
}

/// Numbers can be listed.
proof fn lemma_numbers_exist(
    g: GraphModel,
    entry: NodeId,
    order: Seq<NodeId>,
    vs: Seq<ValueId>,
) -> (s: Seq<u64>)
    requires
        g.valid(),
        lists_known(g, entry, order),
    ensures
        lists_numbers(g, order, vs, s),
    decreases vs.len(),
{
    if vs.len() == 0 {
        let s = Seq::<u64>::empty();
        assert(lists_numbers(g, order, vs, s));
        s
    } else {
        lemma_printed_reached(g, entry, order);
        let rest = vs.drop_last();
        let s = lemma_numbers_exist(g, entry, order, rest);
        let last = value_number(g, order, vs.last());
        assert forall|x: u64| #[trigger] carried(g, order, vs, x) <==> carried(g, order, rest, x)
            || last == Some(x as nat) by {
            if carried(g, order, rest, x) {
                let i = choose|i: int|
                    0 <= i < rest.len() && value_number(g, order, #[trigger] rest[i]) == Some(
                        x as nat,
                    );
                assert(vs[i] == rest[i]);
            }
            if last == Some(x as nat) {
                assert(value_number(g, order, vs[vs.len() - 1]) == Some(x as nat));
            }
            if carried(g, order, vs, x) {
                let i = choose|i: int|
                    0 <= i < vs.len() && value_number(g, order, #[trigger] vs[i]) == Some(x as nat);
                if i < rest.len() {
                    assert(rest[i] == vs[i]);
                }
            }
        }
        match last {
            Some(k) => {
                let x = k as u64;
                assert(k == x as nat);
                if s.contains(x) {
                    assert(lists_numbers(g, order, vs, s));
                    s
                } else {
                    let t = lemma_inserted(s, x);
                    assert(lists_numbers(g, order, vs, t));
                    t
                }
            },
            None => {
                assert(lists_numbers(g, order, vs, s));
                s
            },
        }
    }
}

proof fn lemma_numbers_alike(
    g: GraphModel,
    h: GraphModel,
    entry: NodeId,
    r: Renaming,
    order: Seq<NodeId>,
    vs: Seq<ValueId>,
    ws: Seq<ValueId>,
)
    requires
        g.valid(),
        h.valid(),
        graph_alike(g, h, entry, r),
        lists_known(g, entry, order),
        forall|v: ValueId|
            #[trigger] reached(g, entry, v) ==> (vs.contains(v) <==> ws.contains(r.value(v))),
    ensures
        numbers_of(h, r.all(order), ws) == numbers_of(g, order, vs),
{
    lemma_printed_alike(g, h, entry, r, order);
    lemma_printed_reached(g, entry, order);
    let p = printed(g, order);
    let q = printed(h, r.all(order));
    let s = lemma_numbers_exist(g, entry, order, vs);
    let a = numbers_of(g, order, vs);
    assert(lists_numbers(g, order, vs, a));
    assert forall|x: u64| #[trigger] carried(h, r.all(order), ws, x) <==> carried(g, order, vs, x) by {
        if carried(g, order, vs, x) {
            let i = choose|i: int|
                0 <= i < vs.len() && value_number(g, order, #[trigger] vs[i]) == Some(x as nat);
            let v = vs[i];
            assert(p[p.index_of(v)] == v);
            assert(reached(g, entry, v));
            lemma_number_alike(g, h, entry, r, order, v);
            assert(vs.contains(v));
            let j = ws.index_of(r.value(v));
            assert(value_number(h, r.all(order), ws[j]) == Some(x as nat));
        }
        if carried(h, r.all(order), ws, x) {
            let j = choose|j: int|
                0 <= j < ws.len() && value_number(h, r.all(order), #[trigger] ws[j]) == Some(
                    x as nat,
                );
            let k = q.index_of(ws[j]);
            let v = p[k];
            assert(q[k] == ws[j]);
            assert(reached(g, entry, v));
            assert(r.value(v) == ws[j]);
            assert(ws.contains(r.value(v)));
            lemma_number_alike(g, h, entry, r, order, v);
            let i = vs.index_of(v);
            assert(value_number(g, order, vs[i]) == Some(x as nat));
        }
    }
    assert(lists_numbers(h, r.all(order), ws, a));
    let b = numbers_of(h, r.all(order), ws);
    assert(lists_numbers(h, r.all(order), ws, b));
    lemma_ascending_unique(a, b);
}

proof fn lemma_arg_lines_alike(
    a: &Function,
    b: &Function,
    r: Renaming,
    order: Seq<NodeId>,
    label: Seq<char>,
    class: ArgClass,
    n: nat,
)
    requires
        a.g().valid(),
        b.g().valid(),
        function_alike(a, b, r),
        lists_known(a.g(), a.entry_node(), order),
    ensures
        arg_lines(b, r.all(order), label, class, n) == arg_lines(a, order, label, class, n),
    decreases n,
{
    if n > 0 {
        let k = (n - 1) as nat;
        lemma_arg_lines_alike(a, b, r, order, label, class, k);
        lemma_numbers_alike(
            a.g(),
            b.g(),
            a.entry_node(),
            r,
            order,
            a.tables().carriers(class, k as u32),
            b.tables().carriers(class, k as u32),
        );
    }
}

proof fn lemma_outputs_alike(
    a: &Function,
    b: &Function,
    r: Renaming,
    order: Seq<NodeId>,
    node: NodeId,
    n: int,
)
    requires
        a.g().valid(),
        b.g().valid(),
        function_alike(a, b, r),
        lists_known(a.g(), a.entry_node(), order),
        known(a.g(), a.entry_node(), node),
        n <= a.g().outs(node).len(),
    ensures
        outputs_text(b, r.all(order), r.node(node), n) == outputs_text(a, order, node, n),
    decreases n,
{
    if n > 0 {
        lemma_outputs_alike(a, b, r, order, node, n - 1);
        let g = a.g();
        let v = g.outs(node)[n - 1];
        assert(node_alike(g, b.g(), r, node));
        assert(g.nodes[node.0 as int].outputs[n - 1] == v);
        assert(g.output_ok(node.0 as int, n - 1));
        assert(g.producer(v) == node);
        assert(reached(g, a.entry_node(), v));
        lemma_number_alike(g, b.g(), a.entry_node(), r, order, v);
        assert(b.g().outs(r.node(node))[n - 1] == r.value(v));
        assert(output_text(b, r.all(order), r.value(v)) == output_text(a, order, v));
    }
}

proof fn lemma_inputs_alike(
    a: &Function,
    b: &Function,
    r: Renaming,
    order: Seq<NodeId>,
    node: NodeId,
    n: int,
)
    requires
        a.g().valid(),
        b.g().valid(),
        function_alike(a, b, r),
        lists_known(a.g(), a.entry_node(), order),
        known(a.g(), a.entry_node(), node),
        n <= a.g().ins(node).len(),
    ensures
        inputs_text(b, r.all(order), r.node(node), n) == inputs_text(a, order, node, n),
    decreases n,
{
    if n > 0 {
        lemma_inputs_alike(a, b, r, order, node, n - 1);
        let g = a.g();
        let v = g.ins(node)[n - 1];
        assert(node_alike(g, b.g(), r, node));
        lemma_known_producer(g, a.entry_node(), node, n - 1);
        assert(g.has_value(v)) by {
            assert(g.nodes[node.0 as int].inputs[n - 1] == g.slots(node)[n - 1]);
            assert(g.slot_ok(node.0 as int, n - 1));
        }
        lemma_number_alike(g, b.g(), a.entry_node(), r, order, v);
        assert(b.g().ins(r.node(node))[n - 1] == r.value(v));
    }
}

proof fn lemma_line_alike(
    a: &Function,
    b: &Function,
    r: Renaming,
    order: Seq<NodeId>,
    node: NodeId,
    fingerprints: bool,
)
    requires
        a.g().valid(),
        b.g().valid(),
        function_alike(a, b, r),
        lists_known(a.g(), a.entry_node(), order),
        known(a.g(), a.entry_node(), node),
    ensures
        line_text(b, r.all(order), r.node(node), fingerprints) == line_text(
            a,
            order,
            node,
            fingerprints,
        ),
{
    let m = r.node(node);
    assert(node_alike(a.g(), b.g(), r, node));
    lemma_outputs_alike(a, b, r, order, node, a.g().outs(node).len() as int);
    lemma_inputs_alike(a, b, r, order, node, a.g().ins(node).len() as int);
    assert(kind_alike(a, b, node, m));
    assert(op_text(a.g().kind(node)) == op_text(b.g().kind(m)));
    assert(payload(a, node) == payload(b, m));
    assert(fingerprint_text(a, node, fingerprints) == fingerprint_text(b, m, fingerprints));
}

proof fn lemma_lines_alike(
    a: &Function,
    b: &Function,
    r: Renaming,
    order: Seq<NodeId>,
    fingerprints: bool,
    n: int,
)
    requires
        a.g().valid(),
        b.g().valid(),
        function_alike(a, b, r),
        lists_known(a.g(), a.entry_node(), order),
        n <= order.len(),
    ensures
        lines_text(b, r.all(order), fingerprints, n) == lines_text(a, order, fingerprints, n),
    decreases n,
{
    if n > 0 {
        lemma_lines_alike(a, b, r, order, fingerprints, n - 1);
        assert(known(a.g(), a.entry_node(), order[n - 1]));
        lemma_line_alike(a, b, r, order, order[n - 1], fingerprints);
    }
}

/// Functions that look alike print the same text, however they were built.
pub proof fn law_alike_functions_same_text(a: &Function, b: &Function, r: Renaming, fingerprints: bool)
    requires
        a.wf(),
        b.wf(),
        function_alike(a, b, r),
    ensures
        a.text(fingerprints) == b.text(fingerprints),
{
    a.lemma_wf();
    b.lemma_wf();
    let g = a.g();
    let entry = a.entry_node();
    let order = print_order(g, entry);
    law_print_order_alike(g, b.g(), entry, r);
    law_print_order_reachable(g, entry);
    assert(lists_known(g, entry, order)) by {
        assert forall|i: int| 0 <= i < order.len() implies known(g, entry, #[trigger] order[i]) by {
            assert(order.contains(order[i]));
        }
    }
    lemma_arg_lines_alike(a, b, r, order, "arg"@, ArgClass::Integer, index_count());
    lemma_arg_lines_alike(a, b, r, order, "float_arg"@, ArgClass::Float, index_count());
    lemma_lines_alike(a, b, r, order, fingerprints, order.len() as int);
    assert(header_text(a) == header_text(b));
}

// -- compaction -----------------------------------------------------------------
/// Every control output that can be reached is read once at most.
pub open spec fn control_read_once(g: GraphModel, entry: NodeId) -> bool {
    forall|n: NodeId, i: int|
        #![trigger known(g, entry, n), g.outs(n)[i]]
        known(g, entry, n) && 0 <= i < g.outs(n).len() && g.value_kind(g.outs(n)[i])
            == ValueKind::Control ==> g.readers(g.outs(n)[i]).len() <= 1
}

/// A compaction keeps which nodes read each control output, and in which order.
pub open spec fn control_readers_stay(a: &Function, b: &Function, remap: &NodeIdRemap) -> bool {
    forall|n: NodeId, i: int|
        #![trigger known(a.g(), a.entry_node(), n), a.g().outs(n)[i]]
        known(a.g(), a.entry_node(), n) && 0 <= i < a.g().outs(n).len() && a.g().value_kind(
            a.g().outs(n)[i],
        ) == ValueKind::Control ==> nodes_of(
            b.g().reader_positions(renaming_of(remap).value(a.g().outs(n)[i])),
        ) == renaming_of(remap).all(nodes_of(a.g().reader_positions(a.g().outs(n)[i])))
}

/// What a compaction makes of ids.
pub open spec fn renaming_of(remap: &NodeIdRemap) -> Renaming {
    Renaming {
        nodes: |n: NodeId|
            match remap.node(n) {
                Some(m) => m,
                None => n,
            },
        values: |v: ValueId|
            match remap.value(v) {
                Some(w) => w,
                None => v,
            },
    }
}

/// Slot `p` of `x` reads `v`: it is in the list of `v`.
pub(crate) proof fn lemma_reader_listed(g: GraphModel, x: NodeId, p: int)
    requires
        g.valid(),
        g.has_node(x),
        0 <= p < g.ins(x).len(),
    ensures
        g.has_value(g.ins(x)[p]),
        g.readers(g.ins(x)[p]).contains(g.slots(x)[p]),
        g.uses[g.slots(x)[p].0 as int].node == x,
        g.uses[g.slots(x)[p].0 as int].index == p,
{
    assert(g.nodes[x.0 as int].inputs[p] == g.slots(x)[p]);
    assert(g.slot_ok(x.0 as int, p));
}

/// A reader of `v` is a slot of a node.
pub(crate) proof fn lemma_listed_reader(g: GraphModel, v: ValueId, j: int)
    requires
        g.valid(),
        g.has_value(v),
        0 <= j < g.readers(v).len(),
    ensures
        ({
            let u = g.readers(v)[j];
            let x = g.uses[u.0 as int].node;
            let p = g.uses[u.0 as int].index as int;
            &&& g.has_node(x)
            &&& p < g.ins(x).len()
            &&& g.slots(x)[p] == u
            &&& g.ins(x)[p] == v
        }),
{
    assert(g.lists[v.0 as int][j] == g.readers(v)[j]);
    assert(g.reader_ok(v.0 as int, j));
}

/// Where ids went under a compaction, one node at a time.
pub(crate) open spec fn carried_over(g: GraphModel, h: GraphModel, remap: &NodeIdRemap, n: NodeId) -> bool {
    match remap.node(n) {
        Some(m) => {
            &&& h.has_node(m)
            &&& g.has_node(n)
            &&& h.ins(m).len() == g.ins(n).len()
            &&& h.outs(m).len() == g.outs(n).len()
            &&& forall|i: int|
                0 <= i < g.outs(n).len() ==> remap.value(#[trigger] g.outs(n)[i]) == Some(
                    h.outs(m)[i],
                )
            &&& forall|i: int|
                0 <= i < g.ins(n).len() ==> remap.value(#[trigger] g.ins(n)[i]) == Some(
                    h.ins(m)[i],
                )
        },
        None => true,
    }
}

pub(crate) proof fn lemma_carried_over(
    a: &Function,
    b: &Function,
    remap: &NodeIdRemap,
    order: Seq<NodeId>,
    h: GraphModel,
    n: NodeId,
)
    requires
        a.g().valid(),
        b.g().valid(),
        compaction_of(a, b, remap, order, h),
        forall|n: NodeId|
            (#[trigger] remap.node(n)) is Some <==> reachable(a.g(), a.entry_node(), n),
        a.g().has_node(a.entry_node()),
    ensures
        carried_over(a.g(), b.g(), remap, n),
        remap.node(n) matches Some(m) ==> kind_alike(a, b, n, m) && order.contains(n)
            && order[m.0 as int] == n && m.0 < order.len(),
{
    if let Some(m) = remap.node(n) {
        assert(order.contains(n));
        let k = order.index_of(n);
        assert(b.g().nodes.len() <= u32::MAX);
        assert(remap.node(order[k]) == Some(NodeId(k as u32)));
        assert(m == NodeId(k as u32));
        assert(kept_node(a.g(), h, order[k], NodeId(k as u32), remap));
        assert(h.nodes.len() == order.len());
        lemma_reachable_node(a.g(), a.entry_node(), n);
        assert(b.g().nodes.len() == h.nodes.len());
        assert(h.nodes[k].inputs == b.g().nodes[k].inputs);
        assert(b.g().ins(m) =~= h.ins(m));
        assert(b.g().outs(m) =~= h.outs(m));
        assert(same_meaning(
            a.payloads(),
            a.g().kind(order[k]),
            b.payloads(),
            b.g().kind(NodeId(k as u32)),
        ));
    }
}

/// A compaction keeps who reads a control output.
proof fn lemma_compact_readers(
    a: &Function,
    b: &Function,
    remap: &NodeIdRemap,
    order: Seq<NodeId>,
    h: GraphModel,
    n: NodeId,
    i: int,
)
    requires
        a.g().valid(),
        b.g().valid(),
        a.g().has_node(a.entry_node()),
        compaction_of(a, b, remap, order, h),
        forall|n: NodeId|
            (#[trigger] remap.node(n)) is Some <==> reachable(a.g(), a.entry_node(), n),
        known(a.g(), a.entry_node(), n),
        0 <= i < a.g().outs(n).len(),
        a.g().value_kind(a.g().outs(n)[i]) == ValueKind::Control,
        a.g().readers(a.g().outs(n)[i]).len() <= 1,
    ensures
        nodes_of(b.g().reader_positions(renaming_of(remap).value(a.g().outs(n)[i])))
            == renaming_of(remap).all(nodes_of(a.g().reader_positions(a.g().outs(n)[i]))),
{
    let g = a.g();
    let q = b.g();
    let r = renaming_of(remap);
    let entry = a.entry_node();
    let v = g.outs(n)[i];
    lemma_carried_over(a, b, remap, order, h, n);
    assert(remap.node(n) is Some);
    let w = r.value(v);
    assert(remap.value(v) == Some(w));
    assert(g.nodes[n.0 as int].outputs[i] == v && g.output_ok(n.0 as int, i));
    assert(q.has_value(w)) by {
        let m = r.node(n);
        assert(q.nodes[m.0 as int].outputs[i] == w);
        assert(q.output_ok(m.0 as int, i));
    }
    assert forall|j: int| 0 <= j < g.readers(v).len() implies q.readers(w).len() > 0 && q.uses[(
    #[trigger] q.readers(w)[j]).0 as int].node == r.node(g.uses[g.readers(v)[j].0 as int].node) by {
        lemma_listed_reader(g, v, j);
        let u = g.readers(v)[j];
        let x = g.uses[u.0 as int].node;
        let p = g.uses[u.0 as int].index as int;
        assert(g.reader_positions(g.outs(n)[i])[j].0 == x);
        assert(crate::graph::walk::steps_to(g, n, x));
        lemma_reachable_step(g, entry, n, x);
        lemma_carried_over(a, b, remap, order, h, x);
        assert(remap.node(x) is Some);
        let y = r.node(x);
        assert(remap.value(g.ins(x)[p]) == Some(q.ins(y)[p]));
        lemma_reader_listed(q, y, p);
        assert(q.readers(w).contains(q.slots(y)[p]));
        lemma_compact_reader_back(a, b, remap, order, h, v, 0);
    }
    if q.readers(w).len() > 0 {
        lemma_compact_reader_back(a, b, remap, order, h, v, 0);
    }
    assert(q.readers(w).len() <= 1) by {
        if q.readers(w).len() > 1 {
            lemma_compact_reader_back(a, b, remap, order, h, v, 0);
            lemma_compact_reader_back(a, b, remap, order, h, v, 1);
            lemma_listed_reader(q, w, 0);
            lemma_listed_reader(q, w, 1);
            assert(q.lists[w.0 as int].no_duplicates());
        }
    }
    assert(nodes_of(q.reader_positions(w)) =~= r.all(nodes_of(g.reader_positions(v))));
}

/// A reader in the compacted graph was one.
proof fn lemma_compact_reader_back(
    a: &Function,
    b: &Function,
    remap: &NodeIdRemap,
    order: Seq<NodeId>,
    h: GraphModel,
    v: ValueId,
    k: int,
)
    requires
        a.g().valid(),
        b.g().valid(),
        a.g().has_node(a.entry_node()),
        compaction_of(a, b, remap, order, h),
        forall|n: NodeId|
            (#[trigger] remap.node(n)) is Some <==> reachable(a.g(), a.entry_node(), n),
        remap.value(v) is Some,
        b.g().has_value(remap.value(v)->0),
        0 <= k < b.g().readers(remap.value(v)->0).len(),
        a.g().readers(v).len() <= 1,
    ensures
        a.g().readers(v).len() == 1,
        ({
            let u = b.g().readers(remap.value(v)->0)[k];
            let o = a.g().readers(v)[0];
            &&& b.g().uses[u.0 as int].node == renaming_of(remap).node(a.g().uses[o.0 as int].node)
            &&& b.g().uses[u.0 as int].index == a.g().uses[o.0 as int].index
        }),
{
    let g = a.g();
    let q = b.g();
    let w = remap.value(v)->0;
    lemma_listed_reader(q, w, k);
    let u = q.readers(w)[k];
    let y = q.uses[u.0 as int].node;
    let p = q.uses[u.0 as int].index as int;
    let x = order[y.0 as int];
    assert(h.nodes.len() == order.len());
    assert(remap.node(x) == Some(NodeId(y.0 as int as u32)));
    assert(remap.node(x) == Some(y));
    lemma_carried_over(a, b, remap, order, h, x);
    assert(remap.value(g.ins(x)[p]) == Some(q.ins(y)[p]));
    assert(remap.value(g.ins(x)[p]) == remap.value(v));
    assert(g.ins(x)[p] == v);
    lemma_reader_listed(g, x, p);
    let o = g.slots(x)[p];
    assert(g.readers(v).contains(o));
    let j = g.readers(v).index_of(o);
    assert(j == 0);
}

proof fn lemma_kept_member(vs: Seq<ValueId>, remap: &NodeIdRemap, v: ValueId)
    requires
        remap.value(v) is Some,
        forall|v: ValueId, w: ValueId|
            (#[trigger] remap.value(v)) is Some && remap.value(v) == #[trigger] remap.value(w) ==> v
                == w,
    ensures
        kept_values(vs, remap).contains(remap.value(v)->0) <==> vs.contains(v),
    decreases vs.len(),
{
    if vs.len() > 0 {
        let rest = vs.drop_last();
        lemma_kept_member(rest, remap, v);
        assert(vs =~= rest.push(vs.last()));
        crate::entity_set::lemma_push_member(rest, vs.last(), v);
        if let Some(w) = remap.value(vs.last()) {
            crate::entity_set::lemma_push_member(
                kept_values(rest, remap),
                w,
                remap.value(v)->0,
            );
            assert(remap.value(vs.last()) == remap.value(v) ==> vs.last() == v);
        }
    }
}

/// A compacted function looks like the one it was made from.
proof fn lemma_compact_alike(
    a: &Function,
    b: &Function,
    remap: &NodeIdRemap,
    order: Seq<NodeId>,
    h: GraphModel,
)
    requires
        a.wf(),
        b.wf(),
        compaction_of(a, b, remap, order, h),
        forall|n: NodeId|
            (#[trigger] remap.node(n)) is Some <==> reachable(a.g(), a.entry_node(), n),
        remap.node(a.entry_node()) == Some(b.entry_node()),
        remapped(&a.tables(), &b.tables(), remap),
        a.vns() == b.vns(),
        a.cc_default() == b.cc_default(),
        a.endian() == b.endian(),
        forall|id: u64| #[trigger] a.op_name_of(id) == b.op_name_of(id),
        control_readers_stay(a, b, remap),
    ensures
        function_alike(a, b, renaming_of(remap)),
{
    a.lemma_wf();
    b.lemma_wf();
    let g = a.g();
    let q = b.g();
    let entry = a.entry_node();
    let r = renaming_of(remap);
    assert forall|n: NodeId| #[trigger] known(g, entry, n) implies node_alike(g, q, r, n)
        && kind_alike(a, b, n, r.node(n)) && a.user_op_name(n) == b.user_op_name(r.node(n))
        && a.tables().fingerprint(n) == b.tables().fingerprint(r.node(n)) by {
        assert(remap.node(n) is Some);
        let m = r.node(n);
        assert(remap.node(n) == Some(m));
        lemma_carried_over(a, b, remap, order, h, n);
        assert(q.ins(m) =~= r.all_values(g.ins(n)));
        assert(q.outs(m) =~= r.all_values(g.outs(n)));
        assert forall|i: int| 0 <= i < g.ins(n).len() implies q.producer(
            r.value(#[trigger] g.ins(n)[i]),
        ) == r.node(g.producer(g.ins(n)[i])) by {
            let v = g.ins(n)[i];
            assert(remap.value(v) is Some);
            assert(Some(h.producer(r.value(v))) == remap.node(g.producer(v)));
        }
        assert forall|i: int| 0 <= i < g.outs(n).len() implies q.value_kind(
            r.value(#[trigger] g.outs(n)[i]),
        ) == g.value_kind(g.outs(n)[i]) by {
            assert(remap.value(g.outs(n)[i]) is Some);
        }
        assert forall|i: int|
            0 <= i < g.outs(n).len() && g.value_kind(#[trigger] g.outs(n)[i])
                == ValueKind::Control implies nodes_of(
            q.reader_positions(r.value(g.outs(n)[i])),
        ) == r.all(nodes_of(g.reader_positions(g.outs(n)[i]))) by {
            assert(known(g, entry, n));
        }
        assert(b.tables().name_of(m) == a.tables().name_of(n));
        assert(b.tables().fingerprint(m) == a.tables().fingerprint(n));
    }
    assert forall|x: NodeId, y: NodeId|
        known(g, entry, x) && known(g, entry, y) && #[trigger] r.node(x) == #[trigger] r.node(
            y,
        ) implies x == y by {
        lemma_carried_over(a, b, remap, order, h, x);
        lemma_carried_over(a, b, remap, order, h, y);
        assert(remap.node(x) is Some && remap.node(y) is Some);
    }
    assert forall|v: ValueId| #[trigger] reached(g, entry, v) implies a.tables().vn_of(v)
        == b.tables().vn_of(r.value(v)) by {
        lemma_reached_kept(a, b, remap, order, h, v);
        assert(b.tables().vn_of(r.value(v)) == a.tables().vn_of(v));
    }
    assert forall|v: ValueId, c: ArgClass, i: u32|
        #![trigger reached(g, entry, v), a.tables().carriers(c, i)]
        reached(g, entry, v) implies (a.tables().carriers(c, i).contains(v)
        <==> b.tables().carriers(c, i).contains(r.value(v))) by {
        lemma_reached_kept(a, b, remap, order, h, v);
        lemma_kept_member(a.tables().carriers(c, i), remap, v);
        assert(b.tables().carriers(c, i) == kept_values(a.tables().carriers(c, i), remap));
    }
}

proof fn lemma_reached_kept(
    a: &Function,
    b: &Function,
    remap: &NodeIdRemap,
    order: Seq<NodeId>,
    h: GraphModel,
    v: ValueId,
)
    requires
        compaction_of(a, b, remap, order, h),
        forall|n: NodeId|
            (#[trigger] remap.node(n)) is Some <==> reachable(a.g(), a.entry_node(), n),
        reached(a.g(), a.entry_node(), v),
    ensures
        remap.value(v) == Some(renaming_of(remap).value(v)),
{
    assert(remap.node(a.g().producer(v)) is Some);
    assert(order.contains(a.g().producer(v)));
    assert(remap.value(v) is Some);
}

/// Compaction leaves the text unchanged where it keeps the order of those that
/// read one control output together.
pub proof fn law_compact_keeps_text_with_readers(
    a: &Function,
    b: &Function,
    remap: &NodeIdRemap,
    fingerprints: bool,
)
    requires
        a.wf(),
        b.wf(),
        compacted(a, b, remap),
        forall|n: NodeId|
            (#[trigger] remap.node(n)) is Some <==> reachable(a.g(), a.entry_node(), n),
        remap.node(a.entry_node()) == Some(b.entry_node()),
        remapped(&a.tables(), &b.tables(), remap),
        a.vns() == b.vns(),
        a.cc_default() == b.cc_default(),
        a.endian() == b.endian(),
        forall|id: u64| #[trigger] a.op_name_of(id) == b.op_name_of(id),
        control_readers_stay(a, b, remap),
    ensures
        a.text(fingerprints) == b.text(fingerprints),
{
    a.lemma_wf();
    b.lemma_wf();
    let (order, h) = choose|order: Seq<NodeId>, h: GraphModel| #[trigger]
        compaction_of(a, b, remap, order, h);
    lemma_compact_alike(a, b, remap, order, h);
    law_alike_functions_same_text(a, b, renaming_of(remap), fingerprints);
}

/// Compaction leaves the text unchanged, control outputs being read once at
/// most: what cannot be reached does not print.
pub proof fn law_compact_keeps_text(
    a: &Function,
    b: &Function,
    remap: &NodeIdRemap,
    fingerprints: bool,
)
    requires
        a.wf(),
        b.wf(),
        compacted(a, b, remap),
        forall|n: NodeId|
            (#[trigger] remap.node(n)) is Some <==> reachable(a.g(), a.entry_node(), n),
        remap.node(a.entry_node()) == Some(b.entry_node()),
        remapped(&a.tables(), &b.tables(), remap),
        a.vns() == b.vns(),
        a.cc_default() == b.cc_default(),
        a.endian() == b.endian(),
        forall|id: u64| #[trigger] a.op_name_of(id) == b.op_name_of(id),
        control_read_once(a.g(), a.entry_node()),
    ensures
        a.text(fingerprints) == b.text(fingerprints),
{
    a.lemma_wf();
    b.lemma_wf();
    let (order, h) = choose|order: Seq<NodeId>, h: GraphModel| #[trigger]
        compaction_of(a, b, remap, order, h);
    let g = a.g();
    assert forall|n: NodeId, i: int|
        #![trigger known(g, a.entry_node(), n), g.outs(n)[i]]
        known(g, a.entry_node(), n) && 0 <= i < g.outs(n).len() && g.value_kind(g.outs(n)[i])
            == ValueKind::Control implies nodes_of(
        b.g().reader_positions(renaming_of(remap).value(g.outs(n)[i])),
    ) == renaming_of(remap).all(nodes_of(g.reader_positions(g.outs(n)[i]))) by {
        lemma_compact_readers(a, b, remap, order, h, n, i);
    }
    law_compact_keeps_text_with_readers(a, b, remap, fingerprints);
}

/// A copy prints the same text.
pub proof fn law_copy_keeps_text(a: &Function, b: &Function, fingerprints: bool)
    requires
        a.wf(),
        b.wf(),
        b.g() == a.g(),
        b.entry_node() == a.entry_node(),
        b.tables().agrees(&a.tables()),
        b.cc_default()@ == a.cc_default()@,
        b.endian() == a.endian(),
        b.vns() == a.vns(),
        b.consts() == a.consts(),
        b.switches() == a.switches(),
        b.ccs() == a.ccs(),
        forall|id: u64| #[trigger] b.op_name_of(id) == a.op_name_of(id),
    ensures
        a.text(fingerprints) == b.text(fingerprints),
{
    a.lemma_wf();
    b.lemma_wf();
    let g = a.g();
    let r = Renaming { nodes: |n: NodeId| n, values: |v: ValueId| v };
    assert forall|n: NodeId| #[trigger] known(g, a.entry_node(), n) implies node_alike(g, g, r, n)
        && kind_alike(a, b, n, r.node(n)) && a.user_op_name(n) == b.user_op_name(r.node(n))
        && a.tables().fingerprint(n) == b.tables().fingerprint(r.node(n)) by {
        assert(g.ins(n) =~= r.all_values(g.ins(n)));
        assert(g.outs(n) =~= r.all_values(g.outs(n)));
        assert forall|v: ValueId| nodes_of(#[trigger] g.reader_positions(v)) == r.all(
            nodes_of(g.reader_positions(v)),
        ) by {
            assert(nodes_of(g.reader_positions(v)) =~= r.all(nodes_of(g.reader_positions(v))));
        }
        assert(b.tables().name_of(n) == a.tables().name_of(n));
        assert(b.tables().fingerprint(n) == a.tables().fingerprint(n));
    }
    assert forall|v: ValueId| #[trigger] reached(g, a.entry_node(), v) implies a.tables().vn_of(v)
        == b.tables().vn_of(r.value(v)) by {
        assert(b.tables().vn_of(v) == a.tables().vn_of(v));
    }
    assert forall|v: ValueId, c: ArgClass, i: u32|
        #![trigger reached(g, a.entry_node(), v), a.tables().carriers(c, i)]
        reached(g, a.entry_node(), v) implies (a.tables().carriers(c, i).contains(v)
        <==> b.tables().carriers(c, i).contains(r.value(v))) by {
        assert(b.tables().carriers(c, i) == a.tables().carriers(c, i));
    }
    law_alike_functions_same_text(a, b, r, fingerprints);
}

} // verus!
