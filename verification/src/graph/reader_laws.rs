//! In which order the readers of a value are listed.

use super::model::{drop_use, GraphModel};
use crate::node::{NodeId, UseId, ValueId};
use vstd::prelude::*;

verus! {

/// An input that is added to a node is the first reader of its value; the
/// readers that were there follow in their order, and no other value gains or
/// loses any.
pub proof fn law_newest_reader_comes_first(g: GraphModel, n: NodeId, v: ValueId, w: ValueId)
    requires
        g.valid(),
        g.has_node(n),
        g.has_value(v),
        g.has_value(w),
        g.has_room(0, 1, 0),
    ensures
        ({
            let h = g.with_input(n, v);
            &&& h.reader_positions(v).len() == g.reader_positions(v).len() + 1
            &&& h.reader_positions(v)[0] == (n, g.ins(n).len() as u32)
            &&& h.readers(v).skip(1) == g.readers(v)
            &&& w != v ==> h.readers(w) == g.readers(w)
            &&& h.ins(n) == g.ins(n).push(v)
        }),
{
    let h = g.with_input(n, v);
    assert(h.readers(v).skip(1) =~= g.readers(v));
    assert forall|i: int| 0 <= i < g.slots(n).len() implies g.has_use(#[trigger] g.slots(n)[i]) by {
        assert(g.nodes[n.0 as int].inputs[i] == g.slots(n)[i] && g.slot_ok(n.0 as int, i));
    }
    assert(g.nodes[n.0 as int].inputs.len() <= g.uses.len());
    assert(h.ins(n) =~= g.ins(n).push(v));
}

/// A redirected input is the first reader of its new value, and is gone from
/// the readers of the old one, which keep their order.
pub proof fn law_redirected_reader_comes_first(g: GraphModel, u: UseId, v: ValueId)
    requires
        g.valid(),
        g.has_use(u),
        g.attached(u),
        g.has_value(v),
        g.uses[u.0 as int].value != v,
    ensures
        ({
            let h = g.redirected(u, v);
            let old_value = g.uses[u.0 as int].value;
            &&& h.readers(v) == seq![u] + g.readers(v)
            &&& h.readers(old_value) == g.readers(old_value).remove(
                g.readers(old_value).index_of(u),
            )
            &&& !h.readers(old_value).contains(u)
        }),
{
    let d = g.uses[u.0 as int];
    assert(g.nodes[d.node.0 as int].inputs[d.index as int] == u);
    assert(g.slot_ok(d.node.0 as int, d.index as int));
    let list = g.readers(d.value);
    assert(g.lists[d.value.0 as int].no_duplicates());
    let x = list.index_of(u);
    let rest = drop_use(list, u);
    if rest.contains(u) {
        let y = rest.index_of(u);
        if y < x {
            assert(list[y] == u);
        } else {
            assert(list[y + 1] == u);
        }
    }
}

} // verus!
