//! A drawing of a graph for analysis work: nodes are numbered as they come
//! up, a filter keeps part of the graph, and addresses on the stack are
//! written into loads and stores in place of edges.

use super::args::{arg_tags, holds_tags, tags_label, tags_str, ArgTag};
use super::emitter::{
    attr_models, dot_text, edge_stmt, node_stmt, push_attr, Attr, AttrModel, DotEmitter, DotStyle,
    StmtModel,
};
use super::function_dot::{
    all_uses_go_through_inline, branch_edge, branch_edge_attrs, branch_label, edge_attrs,
    edge_attrs_of, fill_attrs, no_attrs, unread, virtual_id, virtual_name,
};
use super::label::{label_text, pretty_label, Dialect};
use super::naming::Naming;
use super::style::{
    edge_look, edge_style, fill_text, input_role, node_fillcolor, node_shape, role_color,
    role_name_text, role_text, shape_text, slot_role, SlotRole,
};
use crate::entity_set::NodeIdSet;
use crate::fmt::{dec, push_dec};
use crate::function::func::Function;
use crate::graph::walk::{reachable, walk_order};
use crate::id_map::IdMap;
use crate::node::{NodeId, NodeKind, ValueId};
use crate::target::Vn;
use vstd::prelude::*;
use vstd::string::StringExecFns;

verus! {

/// A drawing under way: the number of each node that came up, the boxes that
/// stand for values, the next free number, and what was drawn.
#[verifier::ext_equal]
pub struct GraphScene {
    pub numbers: Map<NodeId, u128>,
    pub virtuals: Map<ValueId, u128>,
    pub next: nat,
    pub stmts: Seq<StmtModel>,
}

/// What is drawn, and how.
pub struct GraphPlan {
    pub f: Function,
    pub names: Naming,
    pub clobbered: Seq<Vn>,
    pub returned: Seq<Vn>,
    pub filter: Option<Set<NodeId>>,
}

pub open spec fn constant_node(p: &GraphPlan, n: NodeId) -> bool {
    p.f.g().kind(n).constant()
}

/// Whether a node passes the filter.
pub open spec fn visible(p: &GraphPlan, n: NodeId) -> bool {
    match p.filter {
        Some(set) => set.contains(n),
        None => true,
    }
}

/// The id of a node, and the scene once it is handed out: a constant gets a
/// new number each time.
pub open spec fn with_number(p: &GraphPlan, sc: GraphScene, n: NodeId) -> (GraphScene, Seq<char>) {
    if !constant_node(p, n) && sc.numbers.contains_key(n) {
        (sc, dec(sc.numbers[n] as nat))
    } else {
        (
            GraphScene {
                numbers: sc.numbers.insert(n, sc.next as u128),
                next: sc.next + 1,
                ..sc
            },
            dec(sc.next),
        )
    }
}

/// Whether a node has a shared box of its own.
pub open spec fn declares(p: &GraphPlan, n: NodeId) -> bool {
    visible(p, n) && !constant_node(p, n) && !(p.f.g().kind(n) is InitialVar && unread(&p.f, n))
}

/// The label of the box of a node: the arguments it carries come first.
pub open spec fn box_label(p: &GraphPlan, n: NodeId) -> Seq<char> {
    let tags = arg_tags(&p.f, n);
    let base = label_text(Dialect::Graph, &p.f, &p.names, n);
    if tags.len() > 0 {
        tags_label(tags, tags.len() as int) + "\n"@ + base
    } else {
        base
    }
}

/// The look of the box of a node: carriers of arguments have two borders.
pub open spec fn box_attrs(p: &GraphPlan, n: NodeId) -> Seq<AttrModel> {
    let fill = seq![("fillcolor"@, fill_text(p.f.g().kind(n)))];
    if arg_tags(&p.f, n).len() > 0 {
        fill.push(("peripheries"@, "2"@))
    } else {
        fill
    }
}

/// The scene once the box of a node is declared, and its id.
pub open spec fn with_box(p: &GraphPlan, sc: GraphScene, n: NodeId) -> (GraphScene, Seq<char>) {
    let (next, id) = with_number(p, sc, n);
    (
        GraphScene {
            stmts: next.stmts.push(
                node_stmt(id, box_label(p, n), shape_text(p.f.g().kind(n)), box_attrs(p, n)),
            ),
            ..next
        },
        id,
    )
}

/// The box of a branch, declared where it was not before.
pub open spec fn with_branch(sc: GraphScene, v: ValueId, label: Seq<char>) -> (GraphScene, Seq<char>) {
    if sc.virtuals.contains_key(v) {
        (sc, virtual_id(sc.virtuals[v] as nat))
    } else {
        (
            GraphScene {
                virtuals: sc.virtuals.insert(v, sc.next as u128),
                next: sc.next + 1,
                stmts: sc.stmts.push(
                    node_stmt(
                        virtual_id(sc.next),
                        label,
                        "trapezium"@,
                        seq![("fillcolor"@, "\"#3a2a10\""@)],
                    ),
                ),
                ..sc
            },
            virtual_id(sc.next),
        )
    }
}

/// The first `k` branches of an `If` with the edges that lead to them.
pub open spec fn with_branches(p: &GraphPlan, sc: GraphScene, n: NodeId, id: Seq<char>, k: int) -> GraphScene
    decreases k,
{
    if k <= 0 {
        sc
    } else {
        let (next, to) = with_branch(
            with_branches(p, sc, n, id, k - 1),
            p.f.g().outs(n)[k - 1],
            branch_label(k - 1),
        );
        GraphScene {
            stmts: next.stmts.push(
                edge_stmt(
                    id,
                    to,
                    branch_edge(
                        if k == 1 {
                            "true"@
                        } else {
                            "false"@
                        },
                    ),
                ),
            ),
            ..next
        }
    }
}

/// How many branches an `If` shows.
pub open spec fn branch_count(p: &GraphPlan, n: NodeId) -> int {
    if p.f.g().outs(n).len() < 2 {
        p.f.g().outs(n).len() as int
    } else {
        2
    }
}

/// What an output of a call past its control and memory is called.
pub open spec fn result_name(p: &GraphPlan, v: ValueId) -> Seq<char> {
    let index = p.f.g().values[v.0 as int].index;
    if index < 2 {
        "out"@ + dec(index as nat)
    } else if index - 2 < p.clobbered.len() {
        p.names.vn_name(p.clobbered[index - 2])
    } else {
        "clob"@ + dec((index - 2) as nat)
    }
}

/// The box that an edge for a value leaves from, declared where it was not
/// before.
pub open spec fn with_source(p: &GraphPlan, sc: GraphScene, v: ValueId) -> (GraphScene, Seq<char>) {
    let g = p.f.g();
    let parent = g.producer(v);
    let index = g.values[v.0 as int].index;
    if sc.virtuals.contains_key(v) {
        (sc, virtual_id(sc.virtuals[v] as nat))
    } else if g.kind(parent) is Call && index >= 2 {
        let (next, call) = with_number(p, GraphScene { next: sc.next + 1, ..sc }, parent);
        let id = virtual_id(sc.next);
        (
            GraphScene {
                virtuals: next.virtuals.insert(v, sc.next as u128),
                stmts: next.stmts.push(
                    node_stmt(
                        id,
                        "Post Call\n"@ + result_name(p, v),
                        "box"@,
                        seq![("fillcolor"@, "\"#28102a\""@), ("style"@, "\"filled,dashed\""@)],
                    ),
                ).push(
                    edge_stmt(
                        call,
                        id,
                        seq![("color"@, "\"#888888\""@), ("style"@, "dashed"@)],
                    ),
                ),
                ..next
            },
            id,
        )
    } else if g.kind(parent) is If {
        with_branch(sc, v, branch_label(index as int))
    } else {
        with_number(p, sc, parent)
    }
}

/// The label and colour that the role of an input gives its edge.
pub open spec fn role_look(kind: NodeKind, idx: int) -> (Seq<char>, Seq<char>) {
    if kind is Call && idx >= 3 {
        (role_name_text(SlotRole::Arg), role_text(SlotRole::Arg))
    } else if slot_role(kind, idx) == Some(SlotRole::Sp) {
        (role_name_text(SlotRole::Sp), role_text(SlotRole::Addr))
    } else {
        edge_look(kind, idx)
    }
}

/// What the edge into input `idx` says: a numbered argument or reference, the
/// register a return carries, the partition a memory state is of, or else the
/// role of the input.
pub open spec fn edge_label(p: &GraphPlan, n: NodeId, idx: int) -> Seq<char> {
    let kind = p.f.g().kind(n);
    let plain = role_look(kind, idx).0;
    if kind is Call && idx >= 3 {
        "arg"@ + dec((idx - 3) as nat)
    } else if kind is CallOther && idx >= 2 {
        "arg"@ + dec((idx - 2) as nat)
    } else if kind is CPoolRef || kind is New {
        "ref"@ + dec(idx as nat)
    } else if kind is Return && idx >= 2 {
        if idx - 2 < p.returned.len() {
            p.names.vn_name(p.returned[idx - 2])
        } else {
            plain
        }
    } else {
        match p.f.g().value_kind(p.f.g().ins(n)[idx]).partition() {
            Some(class) => "mem:"@ + class.name(),
            None => plain,
        }
    }
}

/// A copy of a constant.
pub open spec fn const_box(p: &GraphPlan, n: NodeId, id: Seq<char>) -> StmtModel {
    node_stmt(
        id,
        label_text(Dialect::Graph, &p.f, &p.names, n),
        "ellipse"@,
        seq![("fillcolor"@, fill_text(p.f.g().kind(n)))],
    )
}

/// An address edge that the label of a load or store makes superfluous.
pub open spec fn address_edge(p: &GraphPlan, n: NodeId, idx: int) -> bool {
    idx == 1 && (p.f.g().kind(n) is Store || p.f.g().kind(n) is Load) && p.f.sp_offset(n) is Some
}

/// The scene once the edge into input `idx` is drawn.
pub open spec fn with_edge(p: &GraphPlan, sc: GraphScene, n: NodeId, id: Seq<char>, idx: int) -> GraphScene {
    let v = p.f.g().ins(n)[idx];
    let parent = p.f.g().producer(v);
    if address_edge(p, n, idx) || (!constant_node(p, parent) && !visible(p, parent)) {
        sc
    } else {
        let (next, from) = with_source(p, sc, v);
        let stmts = next.stmts.push(
            edge_stmt(
                from,
                id,
                edge_attrs(role_look(p.f.g().kind(n), idx).1, edge_label(p, n, idx)),
            ),
        );
        GraphScene {
            stmts: if constant_node(p, parent) {
                stmts.push(const_box(p, parent, from))
            } else {
                stmts
            },
            ..next
        }
    }
}

/// The scene once the edges into the first `k` inputs are drawn.
pub open spec fn with_edges(p: &GraphPlan, sc: GraphScene, n: NodeId, id: Seq<char>, k: int) -> GraphScene
    decreases k,
{
    if k <= 0 {
        sc
    } else {
        with_edge(p, with_edges(p, sc, n, id, k - 1), n, id, k - 1)
    }
}

/// The scene once a node is drawn with the edges that lead to it.
pub open spec fn with_node(p: &GraphPlan, sc: GraphScene, n: NodeId) -> GraphScene {
    if !declares(p, n) {
        sc
    } else {
        let (boxed, id) = with_box(p, sc, n);
        let branched = if p.f.g().kind(n) is If {
            with_branches(p, boxed, n, id, branch_count(p, n))
        } else {
            boxed
        };
        with_edges(p, branched, n, id, p.f.g().ins(n).len() as int)
    }
}

/// The scene once the first `k` nodes of a list are drawn.
pub open spec fn with_nodes(p: &GraphPlan, sc: GraphScene, order: Seq<NodeId>, k: int) -> GraphScene
    decreases k,
{
    if k <= 0 {
        sc
    } else {
        with_node(p, with_nodes(p, sc, order, k - 1), order[k - 1])
    }
}

/// The scene before anything is drawn.
pub open spec fn blank() -> GraphScene {
    GraphScene { numbers: Map::empty(), virtuals: Map::empty(), next: 0, stmts: Seq::empty() }
}

// -- drawing -----------------------------------------------------------------------

/// Draws a graph.
pub struct GraphDotDumper<'a> {
    pub entry: NodeId,
    pub function: &'a Function,
    pub naming: &'a Naming,
    /// The registers a call overwrites, in the order of its outputs.
    pub call_clobbered: &'a [Vn],
    /// The registers a return carries, in the order of its inputs.
    pub ret_val_regs: &'a [Vn],
    /// The nodes to draw; all that can be reached if there is no such set.
    pub node_filter: Option<NodeIdSet>,
    /// The arguments that each node carries.
    pub node_to_arg_indices: IdMap<Vec<ArgTag>>,
}

/// What a drawing under way has handed out.
pub struct GraphDotDumperState {
    visited_node_id: IdMap<u128>,
    virtual_nodes: IdMap<u128>,
    next_unique_id: u128,
}

fn number_name(k: u128) -> (r: String)
    ensures
        r@ == dec(k as nat),
{
    let mut s = String::new();
    push_dec(&mut s, k);
    assert(s@ =~= dec(k as nat));
    s
}

/// The entries of a table of nodes.
spec fn node_entries(map: IdMap<u128>) -> Map<NodeId, u128> {
    Map::new(|n: NodeId| map.at(n.0) is Some, |n: NodeId| map.at(n.0)->0)
}

/// The entries of a table of values.
spec fn value_entries(map: IdMap<u128>) -> Map<ValueId, u128> {
    Map::new(|v: ValueId| map.at(v.0) is Some, |v: ValueId| map.at(v.0)->0)
}

/// Those of the first `k` nodes that pass the filter.
pub open spec fn shown_upto(p: &GraphPlan, order: Seq<NodeId>, k: int) -> Seq<NodeId>
    decreases k,
{
    if k <= 0 {
        Seq::empty()
    } else if visible(p, order[k - 1]) {
        shown_upto(p, order, k - 1).push(order[k - 1])
    } else {
        shown_upto(p, order, k - 1)
    }
}

impl GraphDotDumperState {
    pub closed spec fn scene(&self, out: &DotEmitter) -> GraphScene {
        GraphScene {
            numbers: node_entries(self.visited_node_id),
            virtuals: value_entries(self.virtual_nodes),
            next: self.next_unique_id as nat,
            stmts: out@,
        }
    }

    /// How many numbers were handed out.
    pub closed spec fn used(&self) -> nat {
        self.next_unique_id as nat
    }

    /// The number each node goes by.
    pub closed spec fn numbers(&self) -> Map<NodeId, u128> {
        node_entries(self.visited_node_id)
    }

    /// The box that stands for each value.
    pub closed spec fn virtuals(&self) -> Map<ValueId, u128> {
        value_entries(self.virtual_nodes)
    }

    /// The state before anything is drawn.
    pub fn new() -> (r: Self)
        ensures
            r.used() == 0,
            r.numbers() == Map::<NodeId, u128>::empty(),
            r.virtuals() == Map::<ValueId, u128>::empty(),
            forall|out: DotEmitter|
                out@ == Seq::<StmtModel>::empty() ==> #[trigger] r.scene(&out) == blank(),
    {
        let r = GraphDotDumperState {
            visited_node_id: IdMap::new(),
            virtual_nodes: IdMap::new(),
            next_unique_id: 0,
        };
        proof {
            assert(r.numbers() =~= Map::empty());
            assert(r.virtuals() =~= Map::empty());
        }
        r
    }

    /// Gives a node the next number.
    pub fn alloc_id(&mut self, node_id: NodeId) -> (r: String)
        requires
            old(self).used() < u128::MAX,
        ensures
            r@ == dec(old(self).used()),
            final(self).used() == old(self).used() + 1,
            final(self).numbers() == old(self).numbers().insert(
                node_id,
                old(self).used() as u128,
            ),
            final(self).virtuals() == old(self).virtuals(),
    {
        let id = self.next_unique_id;
        self.visited_node_id.insert(node_id.0, id);
        self.next_unique_id = id + 1;
        proof {
            assert(self.numbers() =~= old(self).numbers().insert(node_id, id)) by {
                assert forall|n: NodeId| #[trigger]
                    self.numbers().contains_key(n) <==> old(self).numbers().insert(
                        node_id,
                        id,
                    ).contains_key(n) by {
                    if n.0 == node_id.0 {
                        assert(n == node_id);
                    }
                }
            }
        }
        number_name(id)
    }

    /// The id of a box that stands for no node.
    pub fn alloc_virtual_id(&mut self) -> (r: String)
        requires
            old(self).used() < u128::MAX,
        ensures
            r@ == virtual_id(old(self).used()),
            final(self).used() == old(self).used() + 1,
            final(self).numbers() == old(self).numbers(),
            final(self).virtuals() == old(self).virtuals(),
    {
        let id = self.next_unique_id;
        self.next_unique_id = id + 1;
        virtual_name(id)
    }

    /// The id of a node: a constant gets a new one each time, any other node
    /// keeps the one it has.
    pub fn get_dot_id(&mut self, function: &Function, node_id: NodeId) -> (r: String)
        requires
            function.g().has_node(node_id),
            old(self).used() < u128::MAX,
        ensures
            ({
                let fresh = function.g().kind(node_id).constant() || !old(
                    self,
                ).numbers().contains_key(node_id);
                &&& r@ == if fresh {
                    dec(old(self).used())
                } else {
                    dec(old(self).numbers()[node_id] as nat)
                }
                &&& final(self).numbers() == if fresh {
                    old(self).numbers().insert(node_id, old(self).used() as u128)
                } else {
                    old(self).numbers()
                }
                &&& final(self).used() == if fresh {
                    old(self).used() + 1
                } else {
                    old(self).used()
                }
            }),
            final(self).virtuals() == old(self).virtuals(),
    {
        if function.graph().node_kind(node_id).is_const() {
            return self.alloc_id(node_id);
        }
        if let Some(id) = self.visited_node_id.get(node_id.0) {
            return number_name(*id);
        }
        self.alloc_id(node_id)
    }

    /// Lets a box stand for a value.
    fn set_virtual(&mut self, value: ValueId, id: u128)
        ensures
            final(self).used() == old(self).used(),
            final(self).numbers() == old(self).numbers(),
            final(self).virtuals() == old(self).virtuals().insert(value, id),
    {
        self.virtual_nodes.insert(value.0, id);
        assert(self.virtuals() =~= old(self).virtuals().insert(value, id)) by {
            assert forall|v: ValueId| #[trigger]
                self.virtuals().contains_key(v) <==> old(self).virtuals().insert(
                    value,
                    id,
                ).contains_key(v) by {
                if v.0 == value.0 {
                    assert(v == value);
                }
            }
        }
    }

    /// The box that stands for a value.
    fn virtual_of(&self, value: ValueId) -> (r: Option<u128>)
        ensures
            match r {
                Some(id) => self.virtuals().contains_key(value) && self.virtuals()[value] == id,
                None => !self.virtuals().contains_key(value),
            },
    {
        match self.virtual_nodes.get(value.0) {
            Some(id) => Some(*id),
            None => None,
        }
    }

    fn next_id(&self) -> (r: u128)
        ensures
            r == self.used(),
    {
        self.next_unique_id
    }
}

/// The label and colour that the role of an input gives its edge.
fn role_style(kind: &NodeKind, idx: usize) -> (r: (&'static str, &'static str))
    ensures
        (r.0@, r.1@) == role_look(*kind, idx as int),
{
    if matches!(*kind, NodeKind::Call { .. }) && idx >= 3 {
        return ("arg", role_color(SlotRole::Arg));
    }
    if let Some(role) = input_role(kind, idx) {
        if role == SlotRole::Sp {
            return ("sp", role_color(SlotRole::Addr));
        }
    }
    edge_style(kind, idx)
}

impl<'a> GraphDotDumper<'a> {
    /// What is drawn, and how.
    pub open spec fn plan(&self) -> GraphPlan {
        GraphPlan {
            f: *self.function,
            names: *self.naming,
            clobbered: self.call_clobbered@,
            returned: self.ret_val_regs@,
            filter: match self.node_filter {
                Some(set) => Some(set@),
                None => None,
            },
        }
    }

    pub open spec fn wf(&self) -> bool {
        &&& self.function.wf()
        &&& self.function.g().has_node(self.entry)
        &&& holds_tags(self.function, &self.node_to_arg_indices)
    }

    /// This dumper with a filter: only nodes of the set are drawn.
    pub fn with_node_filter(self, filter: NodeIdSet) -> (r: GraphDotDumper<'a>)
        ensures
            r == (GraphDotDumper { node_filter: Some(filter), ..self }),
    {
        GraphDotDumper {
            entry: self.entry,
            function: self.function,
            naming: self.naming,
            call_clobbered: self.call_clobbered,
            ret_val_regs: self.ret_val_regs,
            node_filter: Some(filter),
            node_to_arg_indices: self.node_to_arg_indices,
        }
    }

    /// Whether a node passes the filter.
    pub fn is_visible(&self, node: NodeId) -> (r: bool)
        ensures
            r == visible(&self.plan(), node),
    {
        match &self.node_filter {
            Some(set) => set.contains(node),
            None => true,
        }
    }

    /// The state before anything is drawn.
    pub fn create_initial_state(&self) -> (r: GraphDotDumperState)
        ensures
            r.used() == 0,
            forall|out: DotEmitter|
                out@ == Seq::<StmtModel>::empty() ==> #[trigger] r.scene(&out) == blank(),
    {
        GraphDotDumperState::new()
    }

    /// The label and look of the box of a node.
    fn box_of(&self, node: NodeId) -> (r: (String, Vec<Attr>))
        requires
            self.wf(),
            self.function.g().has_node(node),
        ensures
            r.0@ == box_label(&self.plan(), node),
            attr_models(r.1@) == box_attrs(&self.plan(), node),
    {
        let base = pretty_label(Dialect::Graph, self.function, self.naming, node);
        let mut extra = fill_attrs(node_fillcolor(self.function.node_kind(node)));
        let label = match self.node_to_arg_indices.get(node.0) {
            Some(tags) => {
                let mut s = tags_str(tags);
                s.append("\n");
                s.append(base.as_str());
                push_attr(&mut extra, "peripheries", "2");
                s
            },
            None => base,
        };
        (label, extra)
    }

    /// Declares the box of a node, where it has one.
    fn try_declare_node(
        &self,
        node: NodeId,
        out: &mut DotEmitter,
        state: &mut GraphDotDumperState,
    ) -> (r: Option<String>)
        requires
            self.wf(),
            self.function.g().has_node(node),
            old(state).used() < u128::MAX,
        ensures
            r is Some <==> declares(&self.plan(), node),
            r matches Some(id) ==> (final(state).scene(final(out)), id@) == with_box(
                &self.plan(),
                old(state).scene(old(out)),
                node,
            ),
            r is None ==> final(state).scene(final(out)) == old(state).scene(old(out)),
            final(state).used() <= old(state).used() + 1,
            final(out).same_frame(old(out)),
    {
        if !self.is_visible(node) {
            return None;
        }
        if self.function.node_kind(node).is_const() {
            return None;
        }
        if matches!(*self.function.node_kind(node), NodeKind::InitialVar(_)) {
            if all_uses_go_through_inline(self.function, node) {
                return None;
            }
        }
        let cur_id = state.get_dot_id(self.function, node);
        let (label, extra) = self.box_of(node);
        let shape = node_shape(self.function.node_kind(node));
        out.node(cur_id.as_str(), label.as_str(), shape, extra);
        Some(cur_id)
    }

    /// The box of a branch, declared where it was not before.
    fn get_or_create_if_branch_virtual(
        state: &mut GraphDotDumperState,
        out_id: ValueId,
        blabel: &str,
        out: &mut DotEmitter,
    ) -> (r: String)
        requires
            old(state).used() < u128::MAX,
        ensures
            (final(state).scene(final(out)), r@) == with_branch(
                old(state).scene(old(out)),
                out_id,
                blabel@,
            ),
            final(state).used() <= old(state).used() + 1,
            final(out).same_frame(old(out)),
    {
        match state.virtual_of(out_id) {
            Some(id) => virtual_name(id),
            None => {
                let id = state.next_id();
                let name = state.alloc_virtual_id();
                state.set_virtual(out_id, id);
                out.node(name.as_str(), blabel, "trapezium", fill_attrs("\"#3a2a10\""));
                name
            },
        }
    }

    /// Draws the branches of an `If`.
    fn emit_if_branch_virtuals(
        &self,
        node: NodeId,
        cur_id: &str,
        out: &mut DotEmitter,
        state: &mut GraphDotDumperState,
    )
        requires
            self.wf(),
            self.function.g().has_node(node),
            old(state).used() + 2 <= u128::MAX,
        ensures
            final(state).scene(final(out)) == with_branches(
                &self.plan(),
                old(state).scene(old(out)),
                node,
                cur_id@,
                branch_count(&self.plan(), node),
            ),
            final(state).used() <= old(state).used() + 2,
            final(out).same_frame(old(out)),
    {
        let outputs = self.function.node_outputs(node);
        let ghost sc = state.scene(out);
        let mut k: usize = 0;
        while k < outputs.len() && k < 2
            invariant
                self.wf(),
                self.function.g().has_node(node),
                outputs@ == self.function.g().outs(node),
                k <= branch_count(&self.plan(), node) <= 2,
                state.scene(out) == with_branches(&self.plan(), sc, node, cur_id@, k as int),
                state.used() <= old(state).used() + k,
                old(state).used() + 2 <= u128::MAX,
                out.same_frame(old(out)),
            decreases 2 - k,
        {
            let blabel = if k == 0 {
                "if.true"
            } else {
                "if.false"
            };
            let elabel = if k == 0 {
                "true"
            } else {
                "false"
            };
            let to = Self::get_or_create_if_branch_virtual(state, outputs[k], blabel, out);
            out.edge(cur_id, to.as_str(), branch_edge_attrs(elabel));
            k += 1;
        }
    }

    /// What an output of a call past its control and memory is called.
    fn call_clobbered_name(&self, value: ValueId) -> (r: String)
        requires
            self.wf(),
            self.function.g().has_value(value),
        ensures
            r@ == result_name(&self.plan(), value),
    {
        let (_, index) = self.function.value_definition(value);
        if index < 2 {
            let mut s = "out".to_owned();
            push_dec(&mut s, index as u128);
            return s;
        }
        let i = (index - 2) as usize;
        if i < self.call_clobbered.len() {
            self.naming.vn_to_name(&self.call_clobbered[i])
        } else {
            let mut s = "clob".to_owned();
            push_dec(&mut s, i as u128);
            s
        }
    }

    /// The register that an input of a return carries.
    fn return_ret_name(&self, input_slot: usize) -> (r: Option<String>)
        ensures
            match r {
                Some(name) => 2 <= input_slot && input_slot - 2 < self.ret_val_regs@.len() && name@
                    == self.naming.vn_name(self.ret_val_regs@[input_slot - 2]),
                None => input_slot < 2 || input_slot - 2 >= self.ret_val_regs@.len(),
            },
    {
        if input_slot < 2 {
            return None;
        }
        if input_slot - 2 < self.ret_val_regs.len() {
            Some(self.naming.vn_to_name(&self.ret_val_regs[input_slot - 2]))
        } else {
            None
        }
    }

    /// The box that an edge for a value leaves from.
    fn source_of(
        &self,
        value: ValueId,
        out: &mut DotEmitter,
        state: &mut GraphDotDumperState,
    ) -> (r: String)
        requires
            self.wf(),
            self.function.g().has_value(value),
            old(state).used() + 2 <= u128::MAX,
        ensures
            (final(state).scene(final(out)), r@) == with_source(
                &self.plan(),
                old(state).scene(old(out)),
                value,
            ),
            final(state).used() <= old(state).used() + 2,
            final(out).same_frame(old(out)),
    {
        let (parent, index) = self.function.value_definition(value);
        if let Some(id) = state.virtual_of(value) {
            return virtual_name(id);
        }
        match *self.function.node_kind(parent) {
            NodeKind::Call { .. } => {
                if index >= 2 {
                    let name = self.call_clobbered_name(value);
                    let mut label = "Post Call\n".to_owned();
                    label.append(name.as_str());
                    let id = state.next_id();
                    let virt = state.alloc_virtual_id();
                    let call_dot_id = state.get_dot_id(self.function, parent);
                    state.set_virtual(value, id);
                    let mut look = fill_attrs("\"#28102a\"");
                    push_attr(&mut look, "style", "\"filled,dashed\"");
                    proof {
                        assert(attr_models(look@) =~= seq![
                            ("fillcolor"@, "\"#28102a\""@),
                            ("style"@, "\"filled,dashed\""@),
                        ]);
                    }
                    out.node(virt.as_str(), label.as_str(), "box", look);
                    let mut line = no_attrs();
                    push_attr(&mut line, "color", "\"#888888\"");
                    push_attr(&mut line, "style", "dashed");
                    proof {
                        assert(attr_models(line@) =~= seq![
                            ("color"@, "\"#888888\""@),
                            ("style"@, "dashed"@),
                        ]);
                    }
                    out.edge(call_dot_id.as_str(), virt.as_str(), line);
                    virt
                } else {
                    state.get_dot_id(self.function, parent)
                }
            },
            NodeKind::If => {
                // The `If` may not have been drawn yet.
                let blabel = if index == 0 {
                    "if.true"
                } else {
                    "if.false"
                };
                Self::get_or_create_if_branch_virtual(state, value, blabel, out)
            },
            _ => state.get_dot_id(self.function, parent),
        }
    }

    /// What the edge into an input says.
    fn edge_label_of(&self, node: NodeId, idx: usize) -> (r: String)
        requires
            self.wf(),
            self.function.g().has_node(node),
            idx < self.function.g().ins(node).len(),
        ensures
            r@ == edge_label(&self.plan(), node, idx as int),
    {
        let kind = *self.function.node_kind(node);
        let (plain, _) = role_style(&kind, idx);
        match kind {
            NodeKind::Call { .. } => {
                if idx >= 3 {
                    let mut s = "arg".to_owned();
                    push_dec(&mut s, (idx - 3) as u128);
                    return s;
                }
            },
            NodeKind::CallOther { .. } => {
                if idx >= 2 {
                    let mut s = "arg".to_owned();
                    push_dec(&mut s, (idx - 2) as u128);
                    return s;
                }
            },
            NodeKind::CPoolRef | NodeKind::New => {
                let mut s = "ref".to_owned();
                push_dec(&mut s, idx as u128);
                return s;
            },
            NodeKind::Return => {
                if idx >= 2 {
                    return match self.return_ret_name(idx) {
                        Some(name) => name,
                        None => plain.to_owned(),
                    };
                }
            },
            _ => {},
        }
        let value = self.function.node_inputs(node).at(idx);
        match self.function.value_kind(value).memory_partition() {
            Some(class) => {
                let mut s = "mem:".to_owned();
                s.append(class.as_str());
                s
            },
            None => plain.to_owned(),
        }
    }

    /// Draws a copy of a constant.
    fn emit_const_node(&self, node: NodeId, dot_id: &str, out: &mut DotEmitter)
        requires
            self.wf(),
            self.function.g().has_node(node),
        ensures
            final(out)@ == old(out)@.push(const_box(&self.plan(), node, dot_id@)),
            final(out).same_frame(old(out)),
    {
        let label = pretty_label(Dialect::Graph, self.function, self.naming, node);
        let fill = node_fillcolor(self.function.node_kind(node));
        out.node(dot_id, label.as_str(), "ellipse", fill_attrs(fill));
    }

    /// Draws the edge into an input, with whatever box it leaves from.
    fn emit_input_edge(
        &self,
        node: NodeId,
        cur_id: &str,
        idx: usize,
        out: &mut DotEmitter,
        state: &mut GraphDotDumperState,
    )
        requires
            self.wf(),
            self.function.g().has_node(node),
            idx < self.function.g().ins(node).len(),
            old(state).used() + 2 <= u128::MAX,
        ensures
            final(state).scene(final(out)) == with_edge(
                &self.plan(),
                old(state).scene(old(out)),
                node,
                cur_id@,
                idx as int,
            ),
            final(state).used() <= old(state).used() + 2,
            final(out).same_frame(old(out)),
    {
        if idx == 1 && matches!(*self.function.node_kind(node), NodeKind::Store(_) | NodeKind::Load(_)) {
            if self.function.stack_offset(node).is_some() {
                return ;
            }
        }
        let value = self.function.node_inputs(node).at(idx);
        let parent = self.function.producer(value);
        let constant = self.function.node_kind(parent).is_const();
        if !constant && !self.is_visible(parent) {
            return ;
        }
        let from = self.source_of(value, out, state);
        let (_, color) = role_style(self.function.node_kind(node), idx);
        let label = self.edge_label_of(node, idx);
        out.edge(from.as_str(), cur_id, edge_attrs_of(color, label.as_str()));
        if constant {
            self.emit_const_node(parent, from.as_str(), out);
        }
    }

    /// Draws a node with the edges that lead to it.
    pub fn dump_as_dot(
        &self,
        node: NodeId,
        out: &mut DotEmitter,
        state: &mut GraphDotDumperState,
    )
        requires
            self.wf(),
            self.function.g().has_node(node),
            old(state).used() + 2 * self.function.g().ins(node).len() + 3 <= u128::MAX,
        ensures
            final(state).scene(final(out)) == with_node(
                &self.plan(),
                old(state).scene(old(out)),
                node,
            ),
            final(state).used() <= old(state).used() + 2 * self.function.g().ins(node).len() + 3,
            final(out).same_frame(old(out)),
    {
        let cur_id = match self.try_declare_node(node, out, state) {
            Some(id) => id,
            None => {
                return ;
            },
        };
        if matches!(*self.function.node_kind(node), NodeKind::If) {
            self.emit_if_branch_virtuals(node, cur_id.as_str(), out, state);
        }
        let count = self.function.node_inputs(node).len();
        let ghost sc = state.scene(out);
        let ghost used = state.used();
        let mut idx: usize = 0;
        while idx < count
            invariant
                self.wf(),
                self.function.g().has_node(node),
                count == self.function.g().ins(node).len(),
                idx <= count,
                state.scene(out) == with_edges(&self.plan(), sc, node, cur_id@, idx as int),
                state.used() <= used + 2 * idx,
                used <= old(state).used() + 3,
                old(state).used() + 2 * count + 3 <= u128::MAX,
                out.same_frame(old(out)),
            decreases count - idx,
        {
            self.emit_input_edge(node, cur_id.as_str(), idx, out, state);
            idx += 1;
        }
    }

    /// Draws nodes one after another.
    pub fn dump_nodes(&self, order: &[NodeId], out: &mut DotEmitter) -> (r: GraphDotDumperState)
        requires
            self.wf(),
            old(out)@ == Seq::<StmtModel>::empty(),
            order@.len() <= u32::MAX,
            forall|i: int| 0 <= i < order@.len() ==> self.function.g().has_node(#[trigger] order@[i]),
        ensures
            r.scene(final(out)) == with_nodes(&self.plan(), blank(), order@, order@.len() as int),
            final(out).same_frame(old(out)),
    {
        let mut state = self.create_initial_state();
        let mut i: usize = 0;
        while i < order.len()
            invariant
                self.wf(),
                i <= order.len() <= u32::MAX,
                forall|k: int|
                    0 <= k < order@.len() ==> self.function.g().has_node(#[trigger] order@[k]),
                state.scene(out) == with_nodes(&self.plan(), blank(), order@, i as int),
                state.used() <= i * 0x2_0000_0003,
                out.same_frame(old(out)),
            decreases order.len() - i,
        {
            proof {
                self.function.lemma_wf();
                assert(self.function.g().has_node(order@[i as int]));
                crate::function::text::settle::lemma_inputs_bounded(
                    self.function.g(),
                    order@[i as int],
                );
                assert(i * 0x2_0000_0003 <= 0xffff_ffff * 0x2_0000_0003) by (nonlinear_arith)
                    requires
                        i <= 0xffff_ffff,
                ;
                assert((i + 1) * 0x2_0000_0003 == i * 0x2_0000_0003 + 0x2_0000_0003)
                    by (nonlinear_arith);
            }
            self.dump_as_dot(order[i], out, &mut state);
            i += 1;
        }
        state
    }

    /// The nodes that are drawn: those that can be reached and pass the filter.
    pub fn iter_nodes(&self) -> (r: Vec<NodeId>)
        requires
            self.wf(),
        ensures
            r@ == self.drawn(),
            r@.no_duplicates(),
            forall|i: int| 0 <= i < r@.len() ==> self.function.g().has_node(#[trigger] r@[i]),
            forall|n: NodeId| #[trigger]
                r@.contains(n) <==> reachable(self.function.g(), self.entry, n) && visible(
                    &self.plan(),
                    n,
                ),
    {
        proof {
            self.function.lemma_wf();
        }
        let all = self.function.graph().walk_from(self.entry);
        let mut r: Vec<NodeId> = Vec::new();
        let mut i: usize = 0;
        while i < all.len()
            invariant
                i <= all.len(),
                all@.no_duplicates(),
                forall|k: int| 0 <= k < all@.len() ==> self.function.g().has_node(#[trigger] all@[k]),
                r@ == shown_upto(&self.plan(), all@, i as int),
                r@.no_duplicates(),
                forall|n: NodeId| #[trigger]
                    r@.contains(n) <==> all@.take(i as int).contains(n) && visible(
                        &self.plan(),
                        n,
                    ),
                forall|k: int| 0 <= k < r@.len() ==> self.function.g().has_node(#[trigger] r@[k]),
            decreases all.len() - i,
        {
            let node = all[i];
            let ghost before = r@;
            proof {
                assert(all@.take(i + 1) =~= all@.take(i as int).push(node));
                if before.contains(node) {
                    let x = all@.take(i as int).index_of(node);
                    assert(all@[x] == all@[i as int]);
                }
            }
            if self.is_visible(node) {
                r.push(node);
            }
            proof {
                assert forall|n: NodeId| #[trigger]
                    r@.contains(n) <==> all@.take(i + 1).contains(n) && visible(
                        &self.plan(),
                        n,
                    ) by {
                    crate::entity_set::lemma_push_member(all@.take(i as int), node, n);
                    crate::entity_set::lemma_push_member(before, node, n);
                }
            }
            i += 1;
        }
        assert(all@.take(i as int) =~= all@);
        r
    }

    /// The nodes that are drawn, in order.
    pub open spec fn drawn(&self) -> Seq<NodeId> {
        let walk = walk_order(self.function.g(), self.entry);
        shown_upto(&self.plan(), walk, walk.len() as int)
    }

    /// The text of the drawing.
    pub fn as_dot(&self, style: DotStyle) -> (r: String)
        requires
            self.wf(),
        ensures
            r@ == dot_text(
                "G"@,
                style,
                with_nodes(&self.plan(), blank(), self.drawn(), self.drawn().len() as int).stmts,
            ),
    {
        let order = self.iter_nodes();
        let mut out = DotEmitter::new("G", &style);
        proof {
            self.function.lemma_wf();
            crate::entity_set::lemma_distinct_bounded(order@, self.function.g().nodes.len());
        }
        self.dump_nodes(order.as_slice(), &mut out);
        out.finish()
    }
}

} // verus!
