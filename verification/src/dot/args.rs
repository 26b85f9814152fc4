//! Which arguments a node carries.

use crate::fmt::{dec, push_dec};
use crate::function::func::Function;
use crate::function::side_tables::ArgClass;
use crate::function::text::render::index_count;
use crate::id_map::IdMap;
use crate::node::{NodeId, ValueId};
use vstd::prelude::*;
use vstd::string::StringExecFns;

verus! {

/// One argument that a node carries.
#[derive(Clone, Copy, PartialEq, Eq, Structural, Debug)]
pub struct ArgTag {
    pub float: bool,
    pub index: u32,
}

pub open spec fn class_of(float: bool) -> ArgClass {
    if float {
        ArgClass::Float
    } else {
        ArgClass::Integer
    }
}

/// The tag once for each of the first `j` values that the node produces.
pub open spec fn tags_among(f: &Function, n: NodeId, tag: ArgTag, vs: Seq<ValueId>, j: int) -> Seq<
    ArgTag,
>
    decreases j,
{
    if j <= 0 {
        Seq::empty()
    } else {
        let rest = tags_among(f, n, tag, vs, j - 1);
        if f.g().has_value(vs[j - 1]) && f.g().producer(vs[j - 1]) == n {
            rest.push(tag)
        } else {
            rest
        }
    }
}

/// The tags of a node for the arguments below `k`, ascending.
pub open spec fn tags_below(f: &Function, n: NodeId, float: bool, k: nat) -> Seq<ArgTag>
    decreases k,
{
    if k == 0 {
        Seq::empty()
    } else {
        let index = (k - 1) as u32;
        let vs = f.tables().carriers(class_of(float), index);
        tags_below(f, n, float, (k - 1) as nat) + tags_among(
            f,
            n,
            ArgTag { float, index },
            vs,
            vs.len() as int,
        )
    }
}

/// The tags of a node: integer arguments, then floating-point ones.
pub open spec fn arg_tags(f: &Function, n: NodeId) -> Seq<ArgTag> {
    tags_below(f, n, false, index_count()) + tags_below(f, n, true, index_count())
}

proof fn lemma_tags_gap(f: &Function, n: NodeId, float: bool, a: nat, b: nat)
    requires
        a <= b <= index_count(),
        forall|i: u32|
            a <= i < b ==> (#[trigger] f.tables().carriers(class_of(float), i)).len() == 0,
    ensures
        tags_below(f, n, float, a) == tags_below(f, n, float, b),
    decreases b - a,
{
    if a < b {
        lemma_tags_gap(f, n, float, a, (b - 1) as nat);
        let index = (b - 1) as u32;
        assert(f.tables().carriers(class_of(float), index).len() == 0);
        assert(tags_below(f, n, float, b) =~= tags_below(f, n, float, (b - 1) as nat));
    }
}

fn push_tags(f: &Function, node: NodeId, float: bool, out: &mut Vec<ArgTag>)
    requires
        f.wf(),
        f.g().has_node(node),
    ensures
        final(out)@ == old(out)@ + tags_below(f, node, float, index_count()),
{
    proof {
        f.lemma_wf();
    }
    let ghost start = out@;
    let ghost g = f.g();
    let count = f.graph().value_count();
    let tables = f.side_tables();
    let indices = if float {
        tables.iter_float_arg_indices()
    } else {
        tables.iter_arg_indices()
    };
    let mut i: usize = 0;
    let ghost mut next: nat = 0;
    assert(out@ =~= start + tags_below(f, node, float, 0));
    while i < indices.len()
        invariant
            f.wf(),
            g == f.g(),
            count == g.values.len(),
            tables == f.tables(),
            i <= indices.len(),
            next <= index_count(),
            i > 0 ==> next == indices@[i - 1] + 1,
            i == 0 ==> next == 0,
            forall|k: u32|
                #[trigger] indices@.contains(k) <==> f.tables().carriers(class_of(float), k).len()
                    > 0,
            forall|a: int, b: int| 0 <= a < b < indices@.len() ==> indices@[a] < indices@[b],
            out@ == start + tags_below(f, node, float, next),
        decreases indices.len() - i,
    {
        let index = indices[i];
        let ghost before = tags_below(f, node, float, index as nat);
        proof {
            assert forall|k: u32| next <= k < index implies (#[trigger] f.tables().carriers(
                class_of(float),
                k,
            )).len() == 0 by {
                if indices@.contains(k) {
                    let x = indices@.index_of(k);
                    if x < i {
                        assert(x == i - 1 || indices@[x] < indices@[i - 1]);
                    } else if x > i {
                        assert(indices@[i as int] < indices@[x]);
                    }
                }
            }
            lemma_tags_gap(f, node, float, next, index as nat);
        }
        let values = if float {
            tables.float_arg_index_to_values(index)
        } else {
            tables.arg_index_to_values(index)
        };
        let tag = ArgTag { float, index };
        let mut j: usize = 0;
        assert(out@ =~= start + before + tags_among(f, node, tag, values@, 0));
        while j < values.len()
            invariant
                f.wf(),
                g == f.g(),
                count == g.values.len(),
                j <= values.len(),
                out@ == start + before + tags_among(f, node, tag, values@, j as int),
            decreases values.len() - j,
        {
            let v = values[j];
            if (v.0 as usize) < count && f.producer(v) == node {
                out.push(tag);
            }
            j += 1;
            assert(out@ =~= start + before + tags_among(f, node, tag, values@, j as int));
        }
        proof {
            next = (index + 1) as nat;
            assert(out@ =~= start + tags_below(f, node, float, next));
        }
        i += 1;
    }
    proof {
        assert forall|k: u32| next <= k < index_count() implies (#[trigger] f.tables().carriers(
            class_of(float),
            k,
        )).len() == 0 by {
            if indices@.contains(k) {
                let x = indices@.index_of(k);
                assert(x == i - 1 || indices@[x] < indices@[i - 1]);
            }
        }
        lemma_tags_gap(f, node, float, next, index_count());
    }
}

/// The arguments a node carries.
pub fn tags_of(f: &Function, node: NodeId) -> (r: Vec<ArgTag>)
    requires
        f.wf(),
        f.g().has_node(node),
    ensures
        r@ == arg_tags(f, node),
{
    let mut r: Vec<ArgTag> = Vec::new();
    push_tags(f, node, false, &mut r);
    push_tags(f, node, true, &mut r);
    assert(r@ =~= arg_tags(f, node));
    r
}

/// A table holds the tags of every node that has any.
pub open spec fn holds_tags(f: &Function, map: &IdMap<Vec<ArgTag>>) -> bool {
    forall|n: NodeId|
        f.g().has_node(n) ==> match #[trigger] map.at(n.0) {
            Some(tags) => tags@ == arg_tags(f, n) && tags@.len() > 0,
            None => arg_tags(f, n).len() == 0,
        }
}

/// The arguments that each node carries.
pub fn build_arg_reverse_map(function: &Function) -> (r: IdMap<Vec<ArgTag>>)
    requires
        function.wf(),
    ensures
        holds_tags(function, &r),
{
    proof {
        function.lemma_wf();
    }
    let nodes = function.graph().all_node_ids();
    let mut r: IdMap<Vec<ArgTag>> = IdMap::new();
    let mut i: usize = 0;
    while i < nodes.len()
        invariant
            function.wf(),
            i <= nodes.len(),
            nodes@.len() == function.g().nodes.len(),
            nodes@.len() <= u32::MAX,
            forall|k: int| 0 <= k < nodes@.len() ==> (#[trigger] nodes@[k]).0 == k,
            forall|n: NodeId|
                n.0 < i ==> match #[trigger] r.at(n.0) {
                    Some(tags) => tags@ == arg_tags(function, n) && tags@.len() > 0,
                    None => arg_tags(function, n).len() == 0,
                },
            forall|n: NodeId| n.0 >= i ==> (#[trigger] r.at(n.0)) is None,
        decreases nodes.len() - i,
    {
        let node = nodes[i];
        assert(nodes@[i as int].0 == i);
        let tags = tags_of(function, node);
        if tags.len() > 0 {
            r.insert(node.0, tags);
        }
        i += 1;
    }
    r
}

/// One tag in brackets.
pub open spec fn tag_label(tag: ArgTag) -> Seq<char> {
    (if tag.float {
        "[float arg "@
    } else {
        "[arg "@
    }) + dec(tag.index as nat) + "]"@
}

/// Tags with commas between them.
pub open spec fn tags_label(tags: Seq<ArgTag>, n: int) -> Seq<char>
    decreases n,
{
    if n <= 0 {
        Seq::empty()
    } else if n == 1 {
        tag_label(tags[0])
    } else {
        tags_label(tags, n - 1) + ", "@ + tag_label(tags[n - 1])
    }
}

fn push_tag(s: &mut String, tag: ArgTag)
    ensures
        final(s)@ == old(s)@ + tag_label(tag),
{
    let ghost start = s@;
    if tag.float {
        s.append("[float arg ");
    } else {
        s.append("[arg ");
    }
    push_dec(s, tag.index as u128);
    s.append("]");
    assert(s@ =~= start + tag_label(tag));
}

/// Tags with commas between them.
pub fn tags_str(tags: &Vec<ArgTag>) -> (r: String)
    ensures
        r@ == tags_label(tags@, tags@.len() as int),
{
    let mut s = String::new();
    let mut i: usize = 0;
    while i < tags.len()
        invariant
            i <= tags.len(),
            s@ == tags_label(tags@, i as int),
        decreases tags.len() - i,
    {
        if i > 0 {
            s.append(", ");
        }
        push_tag(&mut s, tags[i]);
        i += 1;
        assert(s@ =~= tags_label(tags@, i as int));
    }
    s
}

} // verus!
