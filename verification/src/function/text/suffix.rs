//! Fingerprints add a suffix to a line and nothing else.

use super::orderer::print_order;
use super::render::{
    addrs_joined, arg_lines, fingerprint_text, header_text, index_count, inputs_text, line_text,
    lines_text, op_text, outputs_text, payload_text,
};
use crate::function::func::Function;
use crate::function::side_tables::{ascending, ArgClass};
use crate::node::NodeId;
use vstd::prelude::*;

verus! {

/// The line of a node without its contributing addresses.
pub open spec fn line_body(f: &Function, order: Seq<NodeId>, node: NodeId) -> Seq<char> {
    let g = f.g();
    (if g.kind(node) is Region {
        "\n"@
    } else {
        Seq::empty()
    }) + outputs_text(f, order, node, g.outs(node).len() as int) + (if g.outs(node).len() > 0 {
        " = "@
    } else {
        Seq::empty()
    }) + op_text(g.kind(node)) + payload_text(f, node) + inputs_text(
        f,
        order,
        node,
        g.ins(node).len() as int,
    )
}

/// The contributing addresses of a node as a suffix of its line; nothing where
/// there are none.
pub open spec fn line_suffix(f: &Function, node: NodeId) -> Seq<char> {
    if f.tables().fingerprint(node).len() > 0 {
        "  @{"@ + addrs_joined(f.tables().fingerprint(node)) + "}"@
    } else {
        Seq::empty()
    }
}

/// What comes before the lines of the nodes.
pub open spec fn text_head(f: &Function, order: Seq<NodeId>) -> Seq<char> {
    header_text(f) + arg_lines(f, order, "arg"@, ArgClass::Integer, index_count()) + arg_lines(
        f,
        order,
        "float_arg"@,
        ArgClass::Float,
        index_count(),
    )
}

/// The first `n` lines, each made of a body and a suffix.
pub open spec fn assembled(
    bodies: Seq<Seq<char>>,
    suffixes: Seq<Seq<char>>,
    n: int,
) -> Seq<char>
    decreases n,
{
    if n <= 0 {
        Seq::empty()
    } else {
        assembled(bodies, suffixes, n - 1) + (bodies[n - 1] + suffixes[n - 1] + "\n"@)
    }
}

/// The bodies of all lines of a function.
pub open spec fn bodies_of(f: &Function) -> Seq<Seq<char>> {
    let order = print_order(f.g(), f.entry_node());
    Seq::new(order.len(), |k: int| line_body(f, order, order[k]))
}

/// The suffixes of all lines of a function.
pub open spec fn suffixes_of(f: &Function) -> Seq<Seq<char>> {
    let order = print_order(f.g(), f.entry_node());
    Seq::new(order.len(), |k: int| line_suffix(f, order[k]))
}

proof fn lemma_lines(f: &Function, order: Seq<NodeId>, n: int)
    requires
        n <= order.len(),
    ensures
        ({
            let bodies = Seq::new(order.len(), |k: int| line_body(f, order, order[k]));
            let suffixes = Seq::new(order.len(), |k: int| line_suffix(f, order[k]));
            let none = Seq::new(order.len(), |k: int| Seq::<char>::empty());
            &&& lines_text(f, order, true, n) == assembled(bodies, suffixes, n)
            &&& lines_text(f, order, false, n) == assembled(bodies, none, n)
        }),
    decreases n,
{
    if n > 0 {
        lemma_lines(f, order, n - 1);
        let node = order[n - 1];
        assert(line_text(f, order, node, true) == line_body(f, order, node) + fingerprint_text(
            f,
            node,
            true,
        ) + "\n"@);
        assert(line_text(f, order, node, false) == line_body(f, order, node) + fingerprint_text(
            f,
            node,
            false,
        ) + "\n"@);
    }
}

/// The text without fingerprints is the text with the suffixes cut: both are
/// the same head and the same bodies of lines, and a line has a suffix exactly
/// where its node has contributing addresses, all of them, ascending.
pub proof fn law_fingerprints_only_add_suffixes(f: &Function, k: int)
    requires
        f.wf(),
        0 <= k < print_order(f.g(), f.entry_node()).len(),
    ensures
        ({
            let order = print_order(f.g(), f.entry_node());
            let none = Seq::new(order.len(), |k: int| Seq::<char>::empty());
            let addrs = f.tables().fingerprint(order[k]);
            &&& f.text(true) == text_head(f, order) + assembled(
                bodies_of(f),
                suffixes_of(f),
                order.len() as int,
            )
            &&& f.text(false) == text_head(f, order) + assembled(
                bodies_of(f),
                none,
                order.len() as int,
            )
            &&& suffixes_of(f)[k].len() > 0 <==> addrs.len() > 0
            &&& addrs.len() > 0 ==> suffixes_of(f)[k] == "  @{"@ + addrs_joined(addrs) + "}"@
            &&& ascending(addrs)
        }),
{
    f.lemma_wf();
    let order = print_order(f.g(), f.entry_node());
    lemma_lines(f, order, order.len() as int);
    f.tables().lemma_fingerprint_ascending(order[k]);
    reveal_strlit("  @{");
}

} // verus!
