//! A drawing of a function that is meant to be read: constants stand beside
//! each of their readers, and branches and call results have boxes of their
//! own.

use super::args::{arg_tags, build_arg_reverse_map, holds_tags, tags_label, tags_str, ArgTag};
use super::emitter::{
    attr_models, dot_text, edge_stmt, node_stmt, push_attr, Attr, AttrModel, DotEmitter, DotStyle,
    StmtModel,
};
use super::ids::{law_id_names_one_node, law_ids_are_apart, law_virtual_id_names_no_node};
use super::label::{label_text, pretty_label, Dialect};
use super::naming::Naming;
use super::style::{
    edge_look, edge_style, fill_text, node_fillcolor, node_shape, pred_index, pred_of, shape_text,
};
use crate::entity_set::NodeIdSet;
use crate::fmt::{dec, push_dec};
use crate::function::cc::ret_regs;
use crate::function::func::Function;
use crate::graph::walk::walk_order;
use crate::graph::Graph;
use crate::id_map::IdMap;
use crate::node::{NodeId, NodeKind, ValueId};
use vstd::prelude::*;
use vstd::string::{StrSliceExecFns, StringExecFns};

verus! {

/// A drawing under way: the boxes that stand for values, the nodes drawn
/// under their own number, the copies of constants, the next free number, and
/// what was drawn.
#[verifier::ext_equal]
pub struct Scene {
    pub virtuals: Map<ValueId, u128>,
    pub drawn: Set<NodeId>,
    pub copies: Seq<(u128, NodeId)>,
    pub next: nat,
    pub stmts: Seq<StmtModel>,
}

/// What is drawn, and how.
pub struct Plan {
    pub f: Function,
    pub names: Naming,
    pub nodes: Option<Set<NodeId>>,
    pub center: Option<NodeId>,
}

/// The id of a box that stands for no node.
pub open spec fn virtual_id(k: nat) -> Seq<char> {
    "v"@ + dec(k)
}

/// The id of a copy of a constant.
pub open spec fn copy_id(k: nat) -> Seq<char> {
    "c"@ + dec(k)
}

/// Whether a node draws a box beside each reader in place of one shared box:
/// a constant does, unless the drawing is about it.
pub open spec fn per_use(p: &Plan, n: NodeId) -> bool {
    p.f.g().kind(n).constant() && p.center != Some(n)
}

/// The id of a node, and the scene once it is handed out.
pub open spec fn with_id(p: &Plan, sc: Scene, n: NodeId) -> (Scene, Seq<char>) {
    if per_use(p, n) {
        (
            Scene { copies: sc.copies.push((sc.next as u128, n)), next: sc.next + 1, ..sc },
            copy_id(sc.next),
        )
    } else {
        (Scene { drawn: sc.drawn.insert(n), ..sc }, dec(n.0 as nat))
    }
}

/// A node whose single output nobody reads.
pub open spec fn unread(f: &Function, n: NodeId) -> bool {
    f.g().outs(n).len() == 1 && f.g().readers(f.g().outs(n)[0]).len() == 0
}

/// Whether a node has a shared box of its own.
pub open spec fn declares(p: &Plan, n: NodeId) -> bool {
    !per_use(p, n) && !(p.f.g().kind(n) is InitialVar && unread(&p.f, n))
}

/// The label of the box of a node: the arguments it carries come first.
pub open spec fn box_label(p: &Plan, n: NodeId) -> Seq<char> {
    let tags = arg_tags(&p.f, n);
    let base = label_text(Dialect::Function, &p.f, &p.names, n);
    if tags.len() > 0 {
        tags_label(tags, tags.len() as int) + "\n"@ + base
    } else {
        base
    }
}

/// The look of the box of a node: carriers of arguments have two borders, and
/// the centre a bright one.
pub open spec fn box_attrs(p: &Plan, n: NodeId) -> Seq<AttrModel> {
    let fill = seq![("fillcolor"@, fill_text(p.f.g().kind(n)))];
    let tagged = if arg_tags(&p.f, n).len() > 0 {
        fill.push(("peripheries"@, "2"@))
    } else {
        fill
    };
    if p.center == Some(n) {
        tagged.push(("color"@, "\"#ffcc00\""@)).push(("penwidth"@, "2.5"@))
    } else {
        tagged
    }
}

/// The scene once the box of a node is declared.
pub open spec fn with_box(p: &Plan, sc: Scene, n: NodeId) -> Scene {
    let (next, id) = with_id(p, sc, n);
    Scene {
        stmts: next.stmts.push(
            node_stmt(id, box_label(p, n), shape_text(p.f.g().kind(n)), box_attrs(p, n)),
        ),
        ..next
    }
}

/// The box of a branch, declared where it was not before.
pub open spec fn with_branch(sc: Scene, v: ValueId, label: Seq<char>) -> (Scene, Seq<char>) {
    if sc.virtuals.contains_key(v) {
        (sc, virtual_id(sc.virtuals[v] as nat))
    } else {
        (
            Scene {
                virtuals: sc.virtuals.insert(v, sc.next as u128),
                next: sc.next + 1,
                stmts: sc.stmts.push(
                    node_stmt(
                        virtual_id(sc.next),
                        label,
                        "trapezium"@,
                        seq![("fillcolor"@, "\"#3a2a10\""@)],
                    ),
                ),
                ..sc
            },
            virtual_id(sc.next),
        )
    }
}

pub open spec fn branch_edge(label: Seq<char>) -> Seq<AttrModel> {
    seq![
        ("color"@, "\"#00cccc\""@),
        ("label"@, label),
        ("fontcolor"@, "\"#cccccc\""@),
        ("fontsize"@, "9"@),
    ]
}

pub open spec fn branch_label(k: int) -> Seq<char> {
    if k == 0 {
        "if.true"@
    } else {
        "if.false"@
    }
}

/// The first `k` branches of an `If` with the edges that lead to them.
pub open spec fn with_branches(p: &Plan, sc: Scene, n: NodeId, id: Seq<char>, k: int) -> Scene
    decreases k,
{
    if k <= 0 {
        sc
    } else {
        let (next, to) = with_branch(
            with_branches(p, sc, n, id, k - 1),
            p.f.g().outs(n)[k - 1],
            branch_label(k - 1),
        );
        Scene {
            stmts: next.stmts.push(
                edge_stmt(
                    id,
                    to,
                    branch_edge(
                        if k == 1 {
                            "true"@
                        } else {
                            "false"@
                        },
                    ),
                ),
            ),
            ..next
        }
    }
}

/// How many branches an `If` shows.
pub open spec fn branch_count(p: &Plan, n: NodeId) -> int {
    if p.f.g().outs(n).len() < 2 {
        p.f.g().outs(n).len() as int
    } else {
        2
    }
}

/// What an output of a call past its control and memory is called.
pub open spec fn result_name(p: &Plan, v: ValueId) -> Seq<char> {
    let index = p.f.g().values[v.0 as int].index;
    if index >= 2 && p.f.vn_for(v) is Some {
        p.names.vn_name(p.f.vn_for(v)->0)
    } else {
        "out"@ + dec(index as nat)
    }
}

/// The box that an edge for a value leaves from, declared where it was not
/// before.
pub open spec fn with_source(p: &Plan, sc: Scene, v: ValueId) -> (Scene, Seq<char>) {
    let g = p.f.g();
    let parent = g.producer(v);
    let index = g.values[v.0 as int].index;
    if sc.virtuals.contains_key(v) {
        (sc, virtual_id(sc.virtuals[v] as nat))
    } else if g.kind(parent) is Call && index >= 2 {
        let (next, call) = with_id(p, Scene { next: sc.next + 1, ..sc }, parent);
        let id = virtual_id(sc.next);
        (
            Scene {
                virtuals: next.virtuals.insert(v, sc.next as u128),
                stmts: next.stmts.push(
                    node_stmt(
                        id,
                        "Post Call\n"@ + result_name(p, v),
                        "box"@,
                        seq![("fillcolor"@, "\"#28102a\""@), ("style"@, "\"filled,dashed\""@)],
                    ),
                ).push(
                    edge_stmt(
                        call,
                        id,
                        seq![("color"@, "\"#888888\""@), ("style"@, "dashed"@)],
                    ),
                ),
                ..next
            },
            id,
        )
    } else if g.kind(parent) is If {
        with_branch(sc, v, branch_label(index as int))
    } else {
        with_id(p, sc, parent)
    }
}

/// What the edge into input `idx` says.
pub open spec fn edge_label(p: &Plan, n: NodeId, idx: int) -> Seq<char> {
    let kind = p.f.g().kind(n);
    let plain = edge_look(kind, idx).0;
    let rets = ret_regs(&p.f.cc_default());
    if kind is Call && idx == 3 {
        "sp"@
    } else if kind is Call && idx >= 4 {
        "arg"@ + dec((idx - 4) as nat)
    } else if kind is CallOther && idx >= 2 {
        "arg"@ + dec((idx - 2) as nat)
    } else if kind is CPoolRef || kind is New {
        "ref"@ + dec(idx as nat)
    } else if kind is Return && idx >= 2 {
        if idx - 2 < rets.len() {
            p.names.vn_name(rets[idx - 2])
        } else {
            plain
        }
    } else {
        match pred_of(kind, idx) {
            Some(pred) => "pred"@ + dec(pred as nat),
            None => plain,
        }
    }
}

/// The look of an edge: its colour, and its label where it has one.
pub open spec fn edge_attrs(color: Seq<char>, label: Seq<char>) -> Seq<AttrModel> {
    if label.len() == 0 {
        seq![("color"@, color)]
    } else {
        seq![
            ("color"@, color),
            ("label"@, label),
            ("fontcolor"@, "\"#cccccc\""@),
            ("fontsize"@, "9"@),
        ]
    }
}

/// A copy of a constant.
pub open spec fn const_box(p: &Plan, n: NodeId, id: Seq<char>) -> StmtModel {
    node_stmt(
        id,
        label_text(Dialect::Function, &p.f, &p.names, n),
        "ellipse"@,
        seq![("fillcolor"@, fill_text(p.f.g().kind(n)))],
    )
}

/// Whether a node is in view.
pub open spec fn in_view(p: &Plan, n: NodeId) -> bool {
    match p.nodes {
        Some(set) => set.contains(n),
        None => true,
    }
}

/// The scene once the edge into input `idx` is drawn; an edge from a node out
/// of view is left out.
pub open spec fn with_edge(p: &Plan, sc: Scene, n: NodeId, id: Seq<char>, idx: int) -> Scene {
    let v = p.f.g().ins(n)[idx];
    let parent = p.f.g().producer(v);
    if !in_view(p, parent) {
        sc
    } else {
        let (next, from) = with_source(p, sc, v);
        let stmts = next.stmts.push(
            edge_stmt(
                from,
                id,
                edge_attrs(edge_look(p.f.g().kind(n), idx).1, edge_label(p, n, idx)),
            ),
        );
        Scene {
            stmts: if per_use(p, parent) {
                stmts.push(const_box(p, parent, from))
            } else {
                stmts
            },
            ..next
        }
    }
}

/// The scene once the edges into the first `k` inputs are drawn.
pub open spec fn with_edges(p: &Plan, sc: Scene, n: NodeId, id: Seq<char>, k: int) -> Scene
    decreases k,
{
    if k <= 0 {
        sc
    } else {
        with_edge(p, with_edges(p, sc, n, id, k - 1), n, id, k - 1)
    }
}

/// The scene once a node is drawn with the edges that lead to it.
pub open spec fn with_node(p: &Plan, sc: Scene, n: NodeId) -> Scene {
    if !declares(p, n) {
        sc
    } else {
        let id = dec(n.0 as nat);
        let boxed = with_box(p, sc, n);
        let branched = if p.f.g().kind(n) is If {
            with_branches(p, boxed, n, id, branch_count(p, n))
        } else {
            boxed
        };
        with_edges(p, branched, n, id, p.f.g().ins(n).len() as int)
    }
}

/// The scene once the first `k` nodes of a list are drawn.
pub open spec fn with_nodes(p: &Plan, sc: Scene, order: Seq<NodeId>, k: int) -> Scene
    decreases k,
{
    if k <= 0 {
        sc
    } else {
        with_node(p, with_nodes(p, sc, order, k - 1), order[k - 1])
    }
}

/// The scene before anything is drawn.
pub open spec fn blank() -> Scene {
    Scene {
        virtuals: Map::empty(),
        drawn: Set::empty(),
        copies: Seq::empty(),
        next: 0,
        stmts: Seq::empty(),
    }
}

/// An id stands for a node: the node's own number, or one of its copies.
pub open spec fn names_node(
    drawn: Set<NodeId>,
    copies: Seq<(u128, NodeId)>,
    id: Seq<char>,
    n: NodeId,
) -> bool {
    ||| drawn.contains(n) && id == dec(n.0 as nat)
    ||| exists|i: int|
        0 <= i < copies.len() && (#[trigger] copies[i]).1 == n && id == copy_id(copies[i].0 as nat)
}

// -- drawing -----------------------------------------------------------------------

/// Draws a function.
pub struct FunctionDotDumper<'a> {
    pub entry: NodeId,
    pub function: &'a Function,
    pub naming: &'a Naming,
    /// The arguments that each node carries.
    pub node_to_arg_indices: IdMap<Vec<ArgTag>>,
    /// The nodes in view; all that can be reached from the entry if there is
    /// no such set.
    pub nodes: Option<NodeIdSet>,
    /// The node the drawing is about.
    pub center: Option<NodeId>,
}

/// What a drawing under way has handed out.
pub struct FunctionDotDumperState {
    virtual_nodes: IdMap<u128>,
    drawn: NodeIdSet,
    copies: Vec<(u128, NodeId)>,
    next_unique_id: u128,
    center: Option<NodeId>,
}

pub(crate) fn virtual_name(k: u128) -> (r: String)
    ensures
        r@ == virtual_id(k as nat),
{
    let mut s = "v".to_owned();
    push_dec(&mut s, k);
    s
}

fn copy_name(k: u128) -> (r: String)
    ensures
        r@ == copy_id(k as nat),
{
    let mut s = "c".to_owned();
    push_dec(&mut s, k);
    s
}

fn node_name(n: NodeId) -> (r: String)
    ensures
        r@ == dec(n.0 as nat),
{
    let mut s = String::new();
    push_dec(&mut s, n.0 as u128);
    assert(s@ =~= dec(n.0 as nat));
    s
}

impl FunctionDotDumperState {
    /// The number of the box of each value that has one.
    pub closed spec fn boxes(&self) -> Map<ValueId, u128> {
        Map::new(
            |v: ValueId| self.virtual_nodes.at(v.0) is Some,
            |v: ValueId| self.virtual_nodes.at(v.0)->0,
        )
    }

    /// The nodes that came up under their own number.
    pub closed spec fn drawn_nodes(&self) -> Set<NodeId> {
        self.drawn@
    }

    /// The copies of constants, each with its number.
    pub closed spec fn copied(&self) -> Seq<(u128, NodeId)> {
        self.copies@
    }

    /// How many numbers were handed out.
    pub closed spec fn used(&self) -> nat {
        self.next_unique_id as nat
    }

    /// The node the drawing is about.
    pub closed spec fn focus(&self) -> Option<NodeId> {
        self.center
    }

    /// Each copy has a number of its own that was handed out.
    pub open spec fn wf(&self) -> bool {
        &&& forall|i: int|
            0 <= i < self.copied().len() ==> (#[trigger] self.copied()[i]).0 < self.used()
        &&& forall|i: int, j: int|
            #![trigger self.copied()[i], self.copied()[j]]
            0 <= i < j < self.copied().len() ==> self.copied()[i].0 != self.copied()[j].0
    }

    pub open spec fn scene(&self, out: &DotEmitter) -> Scene {
        Scene {
            virtuals: self.boxes(),
            drawn: self.drawn_nodes(),
            copies: self.copied(),
            next: self.used(),
            stmts: out@,
        }
    }

    /// The state is that of a drawing.
    pub open spec fn is_of(&self, sc: Scene) -> bool {
        &&& self.boxes() == sc.virtuals
        &&& self.drawn_nodes() == sc.drawn
        &&& self.copied() == sc.copies
        &&& self.used() == sc.next
    }

    /// What was handed out, with nothing drawn.
    spec fn handed_out(&self) -> Scene {
        Scene {
            virtuals: self.boxes(),
            drawn: self.drawn_nodes(),
            copies: self.copied(),
            next: self.used(),
            stmts: Seq::empty(),
        }
    }

    /// The node that an id stands for.
    pub open spec fn stands_for(&self, id: Seq<char>, n: NodeId) -> bool {
        names_node(self.drawn_nodes(), self.copied(), id, n)
    }

    fn new(center: Option<NodeId>) -> (r: Self)
        ensures
            r.wf(),
            r.focus() == center,
            r.used() == 0,
            forall|out: DotEmitter|
                out@ == Seq::<StmtModel>::empty() ==> #[trigger] r.scene(&out) == blank(),
    {
        let r = FunctionDotDumperState {
            virtual_nodes: IdMap::new(),
            drawn: NodeIdSet::new(),
            copies: Vec::new(),
            next_unique_id: 0,
            center,
        };
        proof {
            assert forall|out: DotEmitter| out@ == Seq::<StmtModel>::empty() implies #[trigger] r.scene(
                &out,
            ) == blank() by {
                assert(r.scene(&out).virtuals =~= Map::empty());
                assert(r.scene(&out).copies =~= Seq::empty());
            }
        }
        r
    }

    /// Every id that was handed out for a node, with the node.
    pub fn dot_to_node(&self) -> (r: Vec<(String, NodeId)>)
        ensures
            forall|i: int| 0 <= i < r@.len() ==> self.stands_for((#[trigger] r@[i]).0@, r@[i].1),
            forall|id: Seq<char>, n: NodeId| #[trigger]
                self.stands_for(id, n) ==> exists|i: int|
                    0 <= i < r@.len() && (#[trigger] r@[i]).0@ == id && r@[i].1 == n,
            self.wf() ==> forall|i: int, j: int|
                #![trigger r@[i], r@[j]]
                0 <= i < j < r@.len() ==> r@[i].0@ != r@[j].0@,
    {
        let mut r: Vec<(String, NodeId)> = Vec::new();
        let own = self.drawn.to_vec();
        proof {
            assert forall|k: int| 0 <= k < own@.len() implies self.drawn@.contains(
                #[trigger] own@[k],
            ) by {
                assert(own@.contains(own@[k]));
            }
        }
        let mut i: usize = 0;
        while i < own.len()
            invariant
                i <= own.len(),
                r@.len() == i,
                forall|k: int| 0 <= k < own@.len() ==> self.drawn@.contains(#[trigger] own@[k]),
                forall|k: int|
                    0 <= k < i ==> (#[trigger] r@[k]).0@ == dec(own@[k].0 as nat) && r@[k].1
                        == own@[k],
            decreases own.len() - i,
        {
            assert(self.drawn@.contains(own@[i as int]));
            r.push((node_name(own[i]), own[i]));
            i += 1;
        }
        let mut j: usize = 0;
        while j < self.copies.len()
            invariant
                j <= self.copies.len(),
                r@.len() == own@.len() + j,
                forall|k: int| 0 <= k < own@.len() ==> self.drawn@.contains(#[trigger] own@[k]),
                forall|k: int|
                    0 <= k < own@.len() ==> (#[trigger] r@[k]).0@ == dec(own@[k].0 as nat)
                        && r@[k].1 == own@[k],
                forall|k: int|
                    own@.len() <= k < r@.len() ==> (#[trigger] r@[k]).0@ == copy_id(
                        self.copies@[k - own@.len()].0 as nat,
                    ) && r@[k].1 == self.copies@[k - own@.len()].1,
            decreases self.copies.len() - j,
        {
            r.push((copy_name(self.copies[j].0), self.copies[j].1));
            j += 1;
        }
        proof {
            assert forall|k: int| 0 <= k < r@.len() implies self.stands_for(
                (#[trigger] r@[k]).0@,
                r@[k].1,
            ) by {
                if k < own@.len() {
                    assert(self.drawn@.contains(own@[k]));
                } else {
                    assert(self.copies@[k - own@.len()].1 == r@[k].1);
                }
            }
            assert forall|id: Seq<char>, n: NodeId| #[trigger]
                self.stands_for(id, n) implies exists|k: int|
                0 <= k < r@.len() && (#[trigger] r@[k]).0@ == id && r@[k].1 == n by {
                if self.drawn@.contains(n) && id == dec(n.0 as nat) {
                    assert(own@.contains(n));
                    let k = own@.index_of(n);
                    assert(r@[k].0@ == id);
                } else {
                    let c = choose|c: int|
                        0 <= c < self.copies@.len() && (#[trigger] self.copies@[c]).1 == n && id
                            == copy_id(self.copies@[c].0 as nat);
                    let k = own@.len() + c;
                    assert(r@[k].0@ == id);
                }
            }
            if self.wf() {
                assert forall|i: int, j: int|
                    #![trigger r@[i], r@[j]]
                    0 <= i < j < r@.len() implies r@[i].0@ != r@[j].0@ by {
                    let len = own@.len() as int;
                    if j < len {
                        law_ids_are_apart(own@[i].0 as nat, own@[j].0 as nat);
                    } else if i < len {
                        law_ids_are_apart(self.copied()[j - len].0 as nat, own@[i].0 as nat);
                    } else {
                        law_ids_are_apart(
                            self.copied()[i - len].0 as nat,
                            self.copied()[j - len].0 as nat,
                        );
                        assert(self.copied()[i - len].0 != self.copied()[j - len].0);
                    }
                }
            }
        }
        r
    }

    /// The node that an id stands for; a box without a node has none.
    pub fn node_of_dot_id(&self, dot_id: &str) -> (r: Option<NodeId>)
        ensures
            match r {
                Some(n) => self.stands_for(dot_id@, n),
                None => forall|n: NodeId| !#[trigger] self.stands_for(dot_id@, n),
            },
            self.wf() ==> forall|n: NodeId| #[trigger]
                self.stands_for(dot_id@, n) ==> r == Some(n),
    {
        let all = self.dot_to_node();
        let wanted = dot_id.to_owned();
        let mut i: usize = 0;
        while i < all.len()
            invariant
                i <= all.len(),
                wanted@ == dot_id@,
                forall|k: int|
                    0 <= k < all@.len() ==> self.stands_for((#[trigger] all@[k]).0@, all@[k].1),
                forall|k: int| 0 <= k < i ==> (#[trigger] all@[k]).0@ != dot_id@,
            decreases all.len() - i,
        {
            if all[i].0 == wanted {
                proof {
                    let found = all@[i as int].1;
                    assert(self.stands_for(all@[i as int].0@, found));
                    if self.wf() {
                        assert forall|n: NodeId| #[trigger]
                            self.stands_for(dot_id@, n) implies n == found by {
                            law_id_names_one_node(self.handed_out(), dot_id@, n, found);
                        }
                    }
                }
                return Some(all[i].1);
            }
            i += 1;
        }
        proof {
            assert forall|n: NodeId| !#[trigger] self.stands_for(dot_id@, n) by {
                if self.stands_for(dot_id@, n) {
                    let k = choose|k: int|
                        0 <= k < all@.len() && (#[trigger] all@[k]).0@ == dot_id@ && all@[k].1 == n;
                    assert(all@[k].0@ != dot_id@);
                }
            }
        }
        None
    }
}

impl FunctionDotDumperState {
    /// Whether a node draws a box beside each reader: constants do, so that a
    /// common one is no hub, but for the node the drawing is about.
    pub fn renders_per_use(&self, graph: &Graph, node: NodeId) -> (r: bool)
        requires
            graph@.has_node(node),
        ensures
            r == (graph@.kind(node).constant() && self.focus() != Some(node)),
    {
        graph.node_kind(node).is_const() && match self.center {
            Some(c) => c.0 != node.0,
            None => true,
        }
    }

    /// The id of a node: its number, each time the same, or a new one for each
    /// copy of a constant. The id stands for the node from then on, and every
    /// other id for what it stood for.
    pub fn get_dot_id(&mut self, graph: &Graph, node_id: NodeId) -> (r: String)
        requires
            graph@.has_node(node_id),
            old(self).used() < u128::MAX,
        ensures
            ({
                let copied = graph@.kind(node_id).constant() && old(self).focus() != Some(node_id);
                &&& r@ == if copied {
                    copy_id(old(self).used())
                } else {
                    dec(node_id.0 as nat)
                }
                &&& final(self).used() == if copied {
                    old(self).used() + 1
                } else {
                    old(self).used()
                }
                &&& final(self).copied() == if copied {
                    old(self).copied().push((old(self).used() as u128, node_id))
                } else {
                    old(self).copied()
                }
                &&& final(self).drawn_nodes() == if copied {
                    old(self).drawn_nodes()
                } else {
                    old(self).drawn_nodes().insert(node_id)
                }
            }),
            final(self).boxes() == old(self).boxes(),
            final(self).focus() == old(self).focus(),
            final(self).stands_for(r@, node_id),
            forall|id: Seq<char>, n: NodeId| #[trigger]
                old(self).stands_for(id, n) ==> final(self).stands_for(id, n),
            old(self).wf() ==> final(self).wf(),
    {
        let copied = self.renders_per_use(graph, node_id);
        let r = if copied {
            let id = self.next_unique_id;
            self.next_unique_id = id + 1;
            self.copies.push((id, node_id));
            copy_name(id)
        } else {
            self.drawn.insert(node_id);
            node_name(node_id)
        };
        proof {
            if copied {
                assert(self.copied()[old(self).copied().len() as int] == (
                    old(self).used() as u128,
                    node_id,
                ));
            }
            assert forall|id: Seq<char>, n: NodeId| #[trigger] old(self).stands_for(id, n) implies
                self.stands_for(id, n) by {
                if !(old(self).drawn_nodes().contains(n) && id == dec(n.0 as nat)) {
                    let i = choose|i: int|
                        0 <= i < old(self).copied().len() && (#[trigger] old(self).copied()[i]).1
                            == n && id == copy_id(old(self).copied()[i].0 as nat);
                    assert(self.copied()[i] == old(self).copied()[i]);
                }
            }
            if old(self).wf() {
                assert forall|i: int| 0 <= i < self.copied().len() implies (
                #[trigger] self.copied()[i]).0 < self.used() by {
                    if i < old(self).copied().len() {
                        assert(self.copied()[i] == old(self).copied()[i]);
                    }
                }
                assert forall|i: int, j: int|
                    #![trigger self.copied()[i], self.copied()[j]]
                    0 <= i < j < self.copied().len() implies self.copied()[i].0
                    != self.copied()[j].0 by {
                    assert(self.copied()[i] == old(self).copied()[i]);
                    if j < old(self).copied().len() {
                        assert(self.copied()[j] == old(self).copied()[j]);
                    }
                }
            }
        }
        r
    }

    /// A new id for a box that stands for no node.
    pub fn alloc_virtual_id(&mut self) -> (r: String)
        requires
            old(self).used() < u128::MAX,
        ensures
            r@ == virtual_id(old(self).used()),
            final(self).used() == old(self).used() + 1,
            final(self).boxes() == old(self).boxes(),
            final(self).drawn_nodes() == old(self).drawn_nodes(),
            final(self).copied() == old(self).copied(),
            final(self).focus() == old(self).focus(),
            forall|n: NodeId| !#[trigger] final(self).stands_for(r@, n),
            old(self).wf() ==> final(self).wf(),
    {
        let id = self.next_unique_id;
        self.next_unique_id = id + 1;
        proof {
            assert(self.copied() == old(self).copied());
            assert forall|n: NodeId| !#[trigger] self.stands_for(virtual_id(id as nat), n) by {
                law_virtual_id_names_no_node(self.handed_out(), id as nat, n);
            }
        }
        virtual_name(id)
    }

    fn next_id(&self) -> (r: u128)
        ensures
            r == self.used(),
    {
        self.next_unique_id
    }

    /// Lets a box stand for a value.
    fn set_virtual(&mut self, value: ValueId, id: u128, out: &DotEmitter)
        ensures
            final(self).used() == old(self).used(),
            final(self).focus() == old(self).focus(),
            old(self).wf() ==> final(self).wf(),
            final(self).scene(out) == (Scene {
                virtuals: old(self).scene(out).virtuals.insert(value, id),
                ..old(self).scene(out)
            }),
    {
        self.virtual_nodes.insert(value.0, id);
        assert(self.scene(out).virtuals =~= old(self).scene(out).virtuals.insert(value, id)) by {
            assert forall|v: ValueId|
                #[trigger] self.scene(out).virtuals.contains_key(v) <==> old(self).scene(
                    out,
                ).virtuals.insert(value, id).contains_key(v) by {
                if v.0 == value.0 {
                    assert(v == value);
                }
            }
        }
    }

    /// The box that stands for a value.
    fn virtual_of(&self, value: ValueId, out: &DotEmitter) -> (r: Option<u128>)
        ensures
            match r {
                Some(id) => self.scene(out).virtuals.contains_key(value) && self.scene(
                    out,
                ).virtuals[value] == id,
                None => !self.scene(out).virtuals.contains_key(value),
            },
    {
        match self.virtual_nodes.get(value.0) {
            Some(id) => Some(*id),
            None => None,
        }
    }
}

pub(crate) fn no_attrs() -> (r: Vec<Attr>)
    ensures
        attr_models(r@) == Seq::<AttrModel>::empty(),
{
    let r: Vec<Attr> = Vec::new();
    assert(attr_models(r@) =~= Seq::<AttrModel>::empty());
    r
}

/// Attributes of a box that has only a fill.
pub(crate) fn fill_attrs(fill: &str) -> (r: Vec<Attr>)
    ensures
        attr_models(r@) == seq![("fillcolor"@, fill@)],
{
    let mut extra = no_attrs();
    push_attr(&mut extra, "fillcolor", fill);
    assert(attr_models(extra@) =~= seq![("fillcolor"@, fill@)]);
    extra
}

pub(crate) fn branch_edge_attrs(label: &str) -> (r: Vec<Attr>)
    ensures
        attr_models(r@) == branch_edge(label@),
{
    let mut extra = no_attrs();
    push_attr(&mut extra, "color", "\"#00cccc\"");
    push_attr(&mut extra, "label", label);
    push_attr(&mut extra, "fontcolor", "\"#cccccc\"");
    push_attr(&mut extra, "fontsize", "9");
    assert(attr_models(extra@) =~= branch_edge(label@));
    extra
}

pub(crate) fn edge_attrs_of(color: &str, label: &str) -> (r: Vec<Attr>)
    ensures
        attr_models(r@) == edge_attrs(color@, label@),
{
    let mut extra = no_attrs();
    push_attr(&mut extra, "color", color);
    if label.unicode_len() > 0 {
        push_attr(&mut extra, "label", label);
        push_attr(&mut extra, "fontcolor", "\"#cccccc\"");
        push_attr(&mut extra, "fontsize", "9");
    }
    assert(attr_models(extra@) =~= edge_attrs(color@, label@));
    extra
}

/// A node whose single output nobody reads; its box would stand alone.
pub fn all_uses_go_through_inline(f: &Function, node: NodeId) -> (r: bool)
    requires
        f.wf(),
        f.g().has_node(node),
    ensures
        r == unread(f, node),
{
    proof {
        f.lemma_wf();
    }
    let outputs = f.node_outputs(node);
    if outputs.len() != 1 {
        return false;
    }
    f.graph().value_uses(outputs[0]).len() == 0
}

impl<'a> FunctionDotDumper<'a> {
    /// What is drawn, and how.
    pub open spec fn plan(&self) -> Plan {
        Plan {
            f: *self.function,
            names: *self.naming,
            nodes: match self.nodes {
                Some(set) => Some(set@),
                None => None,
            },
            center: self.center,
        }
    }

    pub open spec fn wf(&self) -> bool {
        &&& self.function.wf()
        &&& self.function.g().has_node(self.entry)
        &&& holds_tags(self.function, &self.node_to_arg_indices)
        &&& self.nodes matches Some(set) ==> forall|n: NodeId| #[trigger]
            set@.contains(n) ==> self.function.g().has_node(n)
    }

    /// The state before anything is drawn.
    pub fn create_initial_state(&self) -> (r: FunctionDotDumperState)
        ensures
            r.wf(),
            r.focus() == self.center,
            r.used() == 0,
            forall|out: DotEmitter|
                out@ == Seq::<StmtModel>::empty() ==> #[trigger] r.scene(&out) == blank(),
    {
        FunctionDotDumperState::new(self.center)
    }

    /// The label and look of the box of a node.
    fn box_of(&self, node: NodeId) -> (r: (String, Vec<Attr>))
        requires
            self.wf(),
            self.function.g().has_node(node),
        ensures
            r.0@ == box_label(&self.plan(), node),
            attr_models(r.1@) == box_attrs(&self.plan(), node),
    {
        let base = pretty_label(Dialect::Function, self.function, self.naming, node);
        let mut extra = fill_attrs(node_fillcolor(self.function.node_kind(node)));
        let label = match self.node_to_arg_indices.get(node.0) {
            Some(tags) => {
                let mut s = tags_str(tags);
                s.append("\n");
                s.append(base.as_str());
                push_attr(&mut extra, "peripheries", "2");
                s
            },
            None => base,
        };
        if let Some(c) = self.center {
            if c.0 == node.0 {
                push_attr(&mut extra, "color", "\"#ffcc00\"");
                push_attr(&mut extra, "penwidth", "2.5");
            }
        }
        (label, extra)
    }

    /// Declares the box of a node, where it has one.
    fn try_declare_node(
        &self,
        node: NodeId,
        out: &mut DotEmitter,
        state: &mut FunctionDotDumperState,
    ) -> (r: Option<String>)
        requires
            self.wf(),
            self.function.g().has_node(node),
            old(state).used() < u128::MAX,
            old(state).focus() == self.center,
        ensures
            final(state).focus() == old(state).focus(),
            old(state).wf() ==> final(state).wf(),
            r is Some <==> declares(&self.plan(), node),
            r matches Some(id) ==> id@ == dec(node.0 as nat) && final(state).scene(final(out))
                == with_box(&self.plan(), old(state).scene(old(out)), node),
            r is None ==> final(state).scene(final(out)) == old(state).scene(old(out)),
            final(state).used() <= old(state).used() + 1,
            final(out).same_frame(old(out)),
    {
        if state.renders_per_use(self.function.graph(), node) {
            return None;
        }
        if matches!(*self.function.node_kind(node), NodeKind::InitialVar(_)) {
            if all_uses_go_through_inline(self.function, node) {
                return None;
            }
        }
        let cur_id = state.get_dot_id(self.function.graph(), node);
        let (label, extra) = self.box_of(node);
        let shape = node_shape(self.function.node_kind(node));
        out.node(cur_id.as_str(), label.as_str(), shape, extra);
        Some(cur_id)
    }

    /// The box of a branch, declared where it was not before.
    fn get_or_create_if_branch_virtual(
        state: &mut FunctionDotDumperState,
        out_id: ValueId,
        blabel: &str,
        out: &mut DotEmitter,
    ) -> (r: String)
        requires
            old(state).used() < u128::MAX,
        ensures
            (final(state).scene(final(out)), r@) == with_branch(
                old(state).scene(old(out)),
                out_id,
                blabel@,
            ),
            final(state).used() <= old(state).used() + 1,
            final(state).focus() == old(state).focus(),
            old(state).wf() ==> final(state).wf(),
            final(out).same_frame(old(out)),
    {
        match state.virtual_of(out_id, out) {
            Some(id) => virtual_name(id),
            None => {
                let id = state.next_id();
                let name = state.alloc_virtual_id();
                state.set_virtual(out_id, id, out);
                out.node(name.as_str(), blabel, "trapezium", fill_attrs("\"#3a2a10\""));
                name
            },
        }
    }

    /// Draws the branches of an `If`: a box for each, where what reads it did
    /// not declare it before, and an edge to it.
    pub fn emit_if_branch_virtuals(
        &self,
        node: NodeId,
        cur_id: &str,
        out: &mut DotEmitter,
        state: &mut FunctionDotDumperState,
    )
        requires
            self.wf(),
            self.function.g().has_node(node),
            old(state).used() + 2 <= u128::MAX,
        ensures
            final(state).scene(final(out)) == with_branches(
                &self.plan(),
                old(state).scene(old(out)),
                node,
                cur_id@,
                branch_count(&self.plan(), node),
            ),
            final(state).used() <= old(state).used() + 2,
            final(state).focus() == old(state).focus(),
            old(state).wf() ==> final(state).wf(),
            final(out).same_frame(old(out)),
    {
        let outputs = self.function.node_outputs(node);
        let ghost sc = state.scene(out);
        let mut k: usize = 0;
        while k < outputs.len() && k < 2
            invariant
                self.wf(),
                self.function.g().has_node(node),
                outputs@ == self.function.g().outs(node),
                k <= branch_count(&self.plan(), node) <= 2,
                state.scene(out) == with_branches(&self.plan(), sc, node, cur_id@, k as int),
                state.used() <= old(state).used() + k,
                state.focus() == old(state).focus(),
                old(state).wf() ==> state.wf(),
                old(state).used() + 2 <= u128::MAX,
                out.same_frame(old(out)),
            decreases 2 - k,
        {
            let blabel = if k == 0 {
                "if.true"
            } else {
                "if.false"
            };
            let elabel = if k == 0 {
                "true"
            } else {
                "false"
            };
            let to = Self::get_or_create_if_branch_virtual(state, outputs[k], blabel, out);
            out.edge(cur_id, to.as_str(), branch_edge_attrs(elabel));
            k += 1;
        }
    }

    /// What an output of a call past its control and memory is called.
    fn call_clobbered_name(&self, value: ValueId) -> (r: String)
        requires
            self.wf(),
            self.function.g().has_value(value),
        ensures
            r@ == result_name(&self.plan(), value),
    {
        let (_, index) = self.function.value_definition(value);
        if index >= 2 {
            if let Some(vn) = self.function.get_vn_for_value(value) {
                return self.naming.vn_to_name(&vn);
            }
        }
        let mut s = "out".to_owned();
        push_dec(&mut s, index as u128);
        s
    }

    /// The register that an input of a return carries.
    fn return_ret_name(&self, input_slot: usize) -> (r: Option<String>)
        ensures
            ({
                let rets = ret_regs(&self.function.cc_default());
                match r {
                    Some(name) => 2 <= input_slot && input_slot - 2 < rets.len() && name@
                        == self.naming.vn_name(rets[input_slot - 2]),
                    None => input_slot < 2 || input_slot - 2 >= rets.len(),
                }
            }),
    {
        if input_slot < 2 {
            return None;
        }
        let rets = self.function.ret_val_regs();
        if input_slot - 2 < rets.len() {
            Some(self.naming.vn_to_name(&rets[input_slot - 2]))
        } else {
            None
        }
    }

    /// The box that an edge for a value leaves from.
    fn source_of(
        &self,
        value: ValueId,
        out: &mut DotEmitter,
        state: &mut FunctionDotDumperState,
    ) -> (r: String)
        requires
            self.wf(),
            self.function.g().has_value(value),
            old(state).used() + 2 <= u128::MAX,
            old(state).focus() == self.center,
        ensures
            final(state).focus() == old(state).focus(),
            old(state).wf() ==> final(state).wf(),
            (final(state).scene(final(out)), r@) == with_source(
                &self.plan(),
                old(state).scene(old(out)),
                value,
            ),
            final(state).used() <= old(state).used() + 2,
            final(out).same_frame(old(out)),
    {
        let (parent, index) = self.function.value_definition(value);
        if let Some(id) = state.virtual_of(value, out) {
            return virtual_name(id);
        }
        match *self.function.node_kind(parent) {
            NodeKind::Call { .. } => {
                if index >= 2 {
                    let name = self.call_clobbered_name(value);
                    let mut label = "Post Call\n".to_owned();
                    label.append(name.as_str());
                    let id = state.next_id();
                    let virt = state.alloc_virtual_id();
                    let call_dot_id = state.get_dot_id(self.function.graph(), parent);
                    state.set_virtual(value, id, out);
                    let mut look = fill_attrs("\"#28102a\"");
                    push_attr(&mut look, "style", "\"filled,dashed\"");
                    proof {
                        assert(attr_models(look@) =~= seq![
                            ("fillcolor"@, "\"#28102a\""@),
                            ("style"@, "\"filled,dashed\""@),
                        ]);
                    }
                    out.node(virt.as_str(), label.as_str(), "box", look);
                    let mut line = no_attrs();
                    push_attr(&mut line, "color", "\"#888888\"");
                    push_attr(&mut line, "style", "dashed");
                    proof {
                        assert(attr_models(line@) =~= seq![
                            ("color"@, "\"#888888\""@),
                            ("style"@, "dashed"@),
                        ]);
                    }
                    out.edge(call_dot_id.as_str(), virt.as_str(), line);
                    virt
                } else {
                    state.get_dot_id(self.function.graph(), parent)
                }
            },
            NodeKind::If => {
                // The `If` may not have been drawn yet.
                let blabel = if index == 0 {
                    "if.true"
                } else {
                    "if.false"
                };
                Self::get_or_create_if_branch_virtual(state, value, blabel, out)
            },
            _ => state.get_dot_id(self.function.graph(), parent),
        }
    }

    /// What the edge into an input says.
    fn edge_label_of(&self, node: NodeId, idx: usize) -> (r: String)
        requires
            self.wf(),
            self.function.g().has_node(node),
        ensures
            r@ == edge_label(&self.plan(), node, idx as int),
    {
        let kind = *self.function.node_kind(node);
        let (plain, _) = edge_style(&kind, idx);
        match kind {
            NodeKind::Call { .. } => {
                if idx == 3 {
                    return "sp".to_owned();
                }
                if idx >= 4 {
                    let mut s = "arg".to_owned();
                    push_dec(&mut s, (idx - 4) as u128);
                    return s;
                }
            },
            NodeKind::CallOther { .. } => {
                if idx >= 2 {
                    let mut s = "arg".to_owned();
                    push_dec(&mut s, (idx - 2) as u128);
                    return s;
                }
            },
            NodeKind::CPoolRef | NodeKind::New => {
                let mut s = "ref".to_owned();
                push_dec(&mut s, idx as u128);
                return s;
            },
            NodeKind::Return => {
                if let Some(name) = self.return_ret_name(idx) {
                    return name;
                }
            },
            _ => {
                if let Some(pred) = pred_index(kind, idx) {
                    let mut s = "pred".to_owned();
                    push_dec(&mut s, pred as u128);
                    return s;
                }
            },
        }
        plain.to_owned()
    }

    /// Draws a copy of a constant.
    fn emit_const_node(&self, node: NodeId, dot_id: &str, out: &mut DotEmitter)
        requires
            self.wf(),
            self.function.g().has_node(node),
        ensures
            final(out)@ == old(out)@.push(const_box(&self.plan(), node, dot_id@)),
            final(out).same_frame(old(out)),
    {
        let label = pretty_label(Dialect::Function, self.function, self.naming, node);
        let fill = node_fillcolor(self.function.node_kind(node));
        out.node(dot_id, label.as_str(), "ellipse", fill_attrs(fill));
    }

    /// Draws the edge into an input, with whatever box it leaves from.
    fn emit_input_edge(
        &self,
        node: NodeId,
        cur_id: &str,
        idx: usize,
        out: &mut DotEmitter,
        state: &mut FunctionDotDumperState,
    )
        requires
            self.wf(),
            self.function.g().has_node(node),
            idx < self.function.g().ins(node).len(),
            old(state).used() + 2 <= u128::MAX,
            old(state).focus() == self.center,
        ensures
            final(state).focus() == old(state).focus(),
            old(state).wf() ==> final(state).wf(),
            final(state).scene(final(out)) == with_edge(
                &self.plan(),
                old(state).scene(old(out)),
                node,
                cur_id@,
                idx as int,
            ),
            final(state).used() <= old(state).used() + 2,
            final(out).same_frame(old(out)),
    {
        let value = self.function.node_inputs(node).at(idx);
        let parent = self.function.producer(value);
        if let Some(set) = &self.nodes {
            if !set.contains(parent) {
                return ;
            }
        }
        let from = self.source_of(value, out, state);
        let (_, color) = edge_style(self.function.node_kind(node), idx);
        let label = self.edge_label_of(node, idx);
        out.edge(from.as_str(), cur_id, edge_attrs_of(color, label.as_str()));
        if state.renders_per_use(self.function.graph(), parent) {
            self.emit_const_node(parent, from.as_str(), out);
        }
    }

    /// Draws a node with the edges that lead to it.
    pub fn dump_as_dot(
        &self,
        node: NodeId,
        out: &mut DotEmitter,
        state: &mut FunctionDotDumperState,
    )
        requires
            self.wf(),
            self.function.g().has_node(node),
            old(state).used() + 2 * self.function.g().ins(node).len() + 3 <= u128::MAX,
            old(state).focus() == self.center,
        ensures
            final(state).focus() == old(state).focus(),
            old(state).wf() ==> final(state).wf(),
            final(state).scene(final(out)) == with_node(
                &self.plan(),
                old(state).scene(old(out)),
                node,
            ),
            final(state).used() <= old(state).used() + 2 * self.function.g().ins(node).len() + 3,
            final(out).same_frame(old(out)),
    {
        let cur_id = match self.try_declare_node(node, out, state) {
            Some(id) => id,
            None => {
                return ;
            },
        };
        if matches!(*self.function.node_kind(node), NodeKind::If) {
            self.emit_if_branch_virtuals(node, cur_id.as_str(), out, state);
        }
        let count = self.function.node_inputs(node).len();
        let ghost sc = state.scene(out);
        let ghost used = state.used();
        let mut idx: usize = 0;
        while idx < count
            invariant
                self.wf(),
                self.function.g().has_node(node),
                count == self.function.g().ins(node).len(),
                idx <= count,
                cur_id@ == dec(node.0 as nat),
                state.scene(out) == with_edges(&self.plan(), sc, node, cur_id@, idx as int),
                state.used() <= used + 2 * idx,
                state.focus() == self.center,
                state.focus() == old(state).focus(),
                old(state).wf() ==> state.wf(),
                used <= old(state).used() + 3,
                old(state).used() + 2 * count + 3 <= u128::MAX,
                out.same_frame(old(out)),
            decreases count - idx,
        {
            self.emit_input_edge(node, cur_id.as_str(), idx, out, state);
            idx += 1;
        }
    }

    /// Draws nodes one after another.
    pub fn dump_nodes(&self, order: &[NodeId], out: &mut DotEmitter) -> (r: FunctionDotDumperState)
        requires
            self.wf(),
            old(out)@ == Seq::<StmtModel>::empty(),
            order@.len() <= u32::MAX,
            forall|i: int| 0 <= i < order@.len() ==> self.function.g().has_node(#[trigger] order@[i]),
        ensures
            r.wf(),
            r.scene(final(out)) == with_nodes(&self.plan(), blank(), order@, order@.len() as int),
            final(out).same_frame(old(out)),
    {
        let mut state = self.create_initial_state();
        let mut i: usize = 0;
        while i < order.len()
            invariant
                self.wf(),
                i <= order.len() <= u32::MAX,
                forall|k: int|
                    0 <= k < order@.len() ==> self.function.g().has_node(#[trigger] order@[k]),
                state.scene(out) == with_nodes(&self.plan(), blank(), order@, i as int),
                state.used() <= i * 0x2_0000_0003,
                state.focus() == self.center,
                state.wf(),
                out.same_frame(old(out)),
            decreases order.len() - i,
        {
            proof {
                self.function.lemma_wf();
                assert(self.function.g().has_node(order@[i as int]));
                crate::function::text::settle::lemma_inputs_bounded(
                    self.function.g(),
                    order@[i as int],
                );
                assert(i * 0x2_0000_0003 <= 0xffff_ffff * 0x2_0000_0003) by (nonlinear_arith)
                    requires
                        i <= 0xffff_ffff,
                ;
                assert((i + 1) * 0x2_0000_0003 == i * 0x2_0000_0003 + 0x2_0000_0003)
                    by (nonlinear_arith);
            }
            self.dump_as_dot(order[i], out, &mut state);
            i += 1;
        }
        state
    }

    /// The nodes that are drawn: those in view by number, or all that can be
    /// reached, nearest first.
    pub fn iter_nodes(&self) -> (r: Vec<NodeId>)
        requires
            self.wf(),
        ensures
            self.draws(r@),
    {
        match &self.nodes {
            Some(set) => {
                let r = set.to_vec();
                proof {
                    assert forall|i: int| 0 <= i < r@.len() implies self.function.g().has_node(
                        #[trigger] r@[i],
                    ) by {
                        assert(r@.contains(r@[i]));
                    }
                }
                r
            },
            None => {
                proof {
                    self.function.lemma_wf();
                }
                self.function.graph().walk_from(self.entry)
            },
        }
    }

    /// The order in which the nodes of a drawing come.
    pub open spec fn draws(&self, order: Seq<NodeId>) -> bool {
        &&& order.no_duplicates()
        &&& forall|i: int| 0 <= i < order.len() ==> self.function.g().has_node(#[trigger] order[i])
        &&& match self.nodes {
            Some(set) => {
                &&& forall|n: NodeId| #[trigger] order.contains(n) <==> set@.contains(n)
                &&& forall|i: int, j: int| 0 <= i < j < order.len() ==> order[i].0 < order[j].0
            },
            None => order == walk_order(self.function.g(), self.entry),
        }
    }

    /// The text of the drawing, and the ids it uses.
    pub fn as_dot_with_state(&self, style: DotStyle) -> (r: (String, FunctionDotDumperState))
        requires
            self.wf(),
        ensures
            r.1.wf(),
            exists|order: Seq<NodeId>| #[trigger]
                self.draws(order) && {
                    let sc = with_nodes(&self.plan(), blank(), order, order.len() as int);
                    r.0@ == dot_text("G"@, style, sc.stmts) && r.1.is_of(sc)
                },
    {
        let order = self.iter_nodes();
        let mut out = DotEmitter::new("G", &style);
        proof {
            self.function.lemma_wf();
            crate::entity_set::lemma_distinct_bounded(order@, self.function.g().nodes.len());
        }
        let state = self.dump_nodes(order.as_slice(), &mut out);
        (out.finish(), state)
    }

    /// The text of the drawing.
    pub fn as_dot(&self, style: DotStyle) -> (r: String)
        requires
            self.wf(),
        ensures
            exists|order: Seq<NodeId>| #[trigger]
                self.draws(order) && r@ == dot_text(
                    "G"@,
                    style,
                    with_nodes(&self.plan(), blank(), order, order.len() as int).stmts,
                ),
    {
        let (text, _) = self.as_dot_with_state(style);
        text
    }
}

impl Function {
    /// A dumper for this function, with the names of its target.
    pub fn dot_dumper<'a>(&'a self, naming: &'a Naming) -> (r: FunctionDotDumper<'a>)
        requires
            self.wf(),
        ensures
            r.wf(),
            r.entry == self.entry_node(),
            r.plan() == (Plan { f: *self, names: *naming, nodes: None, center: None }),
    {
        proof {
            self.lemma_wf();
        }
        FunctionDotDumper {
            entry: self.entry(),
            function: self,
            naming,
            node_to_arg_indices: build_arg_reverse_map(self),
            nodes: None,
            center: None,
        }
    }
}

/// There is one order in which a drawing comes, so that drawing twice gives the
/// same text.
pub proof fn law_drawing_is_determined(
    d: &FunctionDotDumper<'_>,
    a: Seq<NodeId>,
    b: Seq<NodeId>,
)
    requires
        d.draws(a),
        d.draws(b),
    ensures
        a == b,
{
    if d.nodes is Some {
        crate::entity_set::lemma_ascending_nodes_unique(a, b);
    }
}

} // verus!
