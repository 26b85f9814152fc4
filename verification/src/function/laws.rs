//! What holds of functions across their operations.

use super::func::{
    compacted, compaction_of, stored_limbs, trimmed, vn_before, vns_ascending, Function,
};
use crate::const_value::{limbs_value, ConstModel};
use crate::entity_set::lemma_push_member;
use crate::graph::compact::NodeIdRemap;
use crate::graph::laws::{law_retained_is_all_reachable, same_skeleton};
use crate::graph::model::GraphModel;
use crate::graph::walk::{law_walk_order, reachable};
use crate::node::{NodeId, ValueType};
use crate::target::Vn;
use vstd::prelude::*;

verus! {

/// After compaction every node can be reached from the entry.
pub proof fn law_compacted_is_all_reachable(
    a: &Function,
    b: &Function,
    remap: &NodeIdRemap,
    m: NodeId,
)
    requires
        a.wf(),
        b.wf(),
        compacted(a, b, remap),
        forall|n: NodeId|
            (#[trigger] remap.node(n)) is Some <==> reachable(a.g(), a.entry_node(), n),
        remap.node(a.entry_node()) == Some(b.entry_node()),
        b.g().has_node(m),
    ensures
        reachable(b.g(), b.entry_node(), m),
{
    a.lemma_wf();
    b.lemma_wf();
    let (order, h) = choose|order: Seq<NodeId>, h: GraphModel| #[trigger]
        compaction_of(a, b, remap, order, h);
    assert(same_skeleton(h, b.g()));
    law_retained_is_all_reachable(a.g(), b.g(), h, a.entry_node(), remap, m);
    law_walk_order(a.g(), a.entry_node());
    assert(remap.node(order[0]) == Some(NodeId(0)));
}

/// Limbs of one count that spell one number are the same.
proof fn lemma_limbs_injective(a: Seq<u64>, b: Seq<u64>)
    requires
        a.len() == b.len(),
        limbs_value(a) == limbs_value(b),
    ensures
        a == b,
    decreases a.len(),
{
    if a.len() > 0 {
        let base = 0x1_0000_0000_0000_0000nat;
        let (x, y) = (limbs_value(a.skip(1)), limbs_value(b.skip(1)));
        assert(a[0] == b[0] && x == y) by (nonlinear_arith)
            requires
                a[0] as nat + base * x == b[0] as nat + base * y,
                base == 0x1_0000_0000_0000_0000nat,
                a[0] < base,
                b[0] < base,
        ;
        lemma_limbs_injective(a.skip(1), b.skip(1));
        assert forall|i: int| 0 <= i < a.len() implies a[i] == b[i] by {
            if i > 0 {
                assert(a.skip(1)[i - 1] == b.skip(1)[i - 1]);
            }
        }
    }
    assert(a =~= b);
}

/// Constants that are equal once cut to their type are stored alike, however
/// many limbs they were spelled with: they get one id.
pub proof fn law_equal_constants_are_stored_alike(a: Seq<u64>, b: Seq<u64>, ty: ValueType)
    requires
        limbs_value(trimmed(a, ty)) == limbs_value(trimmed(b, ty)),
    ensures
        stored_limbs(a, ty) == stored_limbs(b, ty),
{
    lemma_limbs_injective(trimmed(a, ty), trimmed(b, ty));
}

/// A constant given as limbs is stored as the same one given as a number is.
pub proof fn law_limbs_and_numbers_agree(limbs: Seq<u64>, value: u128, ty: ValueType)
    requires
        limbs_value(trimmed(limbs, ty)) == value & ty.mask(),
    ensures
        stored_limbs(limbs, ty) == ConstModel::Bits(value & ty.mask()),
{
    let mask = ty.mask();
    assert((value & mask) & mask == value & mask) by (bit_vector);
}

proof fn lemma_ascending_vns_unique(a: Seq<Vn>, b: Seq<Vn>)
    requires
        vns_ascending(a),
        vns_ascending(b),
        forall|v: Vn| #[trigger] a.contains(v) <==> b.contains(v),
    ensures
        a == b,
    decreases a.len(),
{
    if a.len() == 0 {
        if b.len() > 0 {
            assert(b.contains(b[0]) && a.contains(b[0]));
        }
    } else {
        assert(a.contains(a[0]));
        assert(b.contains(a[0]));
        let (x, y) = (a.last(), b.last());
        assert(a[a.len() - 1] == x && b[b.len() - 1] == y);
        assert(a.contains(x) && b.contains(x));
        assert(b.contains(y) && a.contains(y));
        let i = b.index_of(x);
        let j = a.index_of(y);
        assert(x == y) by {
            if i < b.len() - 1 && j < a.len() - 1 {
                assert(vn_before(b[i], b[b.len() - 1]));
                assert(vn_before(a[j], a[a.len() - 1]));
            }
        }
        let (c, d) = (a.drop_last(), b.drop_last());
        assert(a =~= c.push(x) && b =~= d.push(y));
        assert forall|v: Vn| #[trigger] c.contains(v) <==> d.contains(v) by {
            lemma_push_member(c, x, v);
            lemma_push_member(d, y, v);
            assert(a.contains(v) <==> b.contains(v));
            if v == x {
                if c.contains(v) {
                    let k = c.index_of(v);
                    assert(vn_before(a[k], a[a.len() - 1]));
                }
                if d.contains(v) {
                    let k = d.index_of(v);
                    assert(vn_before(b[k], b[b.len() - 1]));
                }
            }
        }
        lemma_ascending_vns_unique(c, d);
    }
    assert(a =~= b);
}

/// Functions that track the same varnodes, in whatever order they were named,
/// have them under the same ids.
pub proof fn law_varnode_ids_ignore_order(a: &Function, b: &Function, vn: Vn)
    requires
        vns_ascending(a.vns()),
        vns_ascending(b.vns()),
        forall|v: Vn| #[trigger] a.vns().contains(v) <==> b.vns().contains(v),
    ensures
        a.vns() == b.vns(),
        a.vn_index(vn) == b.vn_index(vn),
{
    lemma_ascending_vns_unique(a.vns(), b.vns());
}

} // verus!
