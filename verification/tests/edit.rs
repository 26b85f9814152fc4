//! Edits of a function, and the sets of live and root nodes that go with them.

use std::collections::BTreeSet;
use strider_ir::function::edit::edit_function::{EditFunction, FunctionState};
use strider_ir::function::func::Function;
use strider_ir::node::{
    ConstId, IntBinaryOp, IntUnaryOp, NodeId, NodeKind, ValueId, ValueKind, ValueType,
};
use strider_ir::target::{BuiltCallingConvention, Endianness, VnSpace};

fn cid(n: u64) -> ConstId {
    ConstId(n as u32)
}

/// Builds a function region by region; every node it makes is stamped with the
/// address that is set.
struct Builder {
    f: Function,
    ctrl: ValueId,
    mem: ValueId,
    addr: Option<u64>,
}

impl Builder {
    /// An entry region, and the initial memory.
    fn new() -> Self {
        let mut f = Function::new(
            BuiltCallingConvention::trivial(),
            Endianness::Little,
            Vec::new(),
        );
        let mem = f
            .graph_mut()
            .create_node(NodeKind::InitialMemory, &[], &[ValueKind::Memory]);
        let mem = f.node_outputs(mem)[0];
        let entry = f.node_outputs(f.entry())[0];
        let mut b = Builder { f, ctrl: entry, mem, addr: None };
        let region = b.create_region_all();
        b.f.graph_mut().add_node_input(region, entry).unwrap();
        b.set_region(region);
        b
    }

    fn make(&mut self, kind: NodeKind, inputs: &[ValueId], outputs: &[ValueKind]) -> NodeId {
        let node = self.f.graph_mut().create_node(kind, inputs, outputs);
        if let Some(addr) = self.addr {
            self.f.side_tables_mut().extend_asm_fingerprint(node, &[addr]);
        }
        node
    }

    fn create_region_all(&mut self) -> NodeId {
        self.make(
            NodeKind::Region,
            &[],
            &[ValueKind::Control, ValueKind::PhiToken],
        )
    }

    fn set_region(&mut self, region: NodeId) {
        self.ctrl = self.f.node_outputs(region)[0];
    }

    fn set_lift_addr(&mut self, addr: Option<u64>) {
        self.addr = addr;
    }

    fn build_int_const(&mut self, value: u64, ty: ValueType) -> ValueId {
        let id = self.f.intern_int_const(value as u128, ty);
        let node = self.make(NodeKind::IntConst(id), &[], &[ValueKind::Typed(ty)]);
        self.f.node_outputs(node)[0]
    }

    fn build_boolean_const(&mut self, value: bool) -> ValueId {
        self.build_int_const(value as u64, ValueType::I1)
    }

    fn build_int_binary_operation(
        &mut self,
        lhs: ValueId,
        rhs: ValueId,
        op: IntBinaryOp,
        ty: ValueType,
    ) -> ValueId {
        let node = self.make(NodeKind::IntBinaryOp(op), &[lhs, rhs], &[ValueKind::Typed(ty)]);
        self.f.node_outputs(node)[0]
    }

    fn build_int_unary_operation(&mut self, value: ValueId, op: IntUnaryOp, ty: ValueType) -> ValueId {
        let node = self.make(NodeKind::IntUnaryOp(op), &[value], &[ValueKind::Typed(ty)]);
        self.f.node_outputs(node)[0]
    }

    fn build_store(&mut self, addr: ValueId, data: ValueId, space: VnSpace) {
        let node = self.make(
            NodeKind::Store(space),
            &[self.mem, addr, data],
            &[ValueKind::Memory],
        );
        self.mem = self.f.node_outputs(node)[0];
    }

    fn build_if(&mut self, cond: ValueId, then_region: NodeId, else_region: NodeId) {
        let node = self.make(
            NodeKind::If,
            &[self.ctrl, cond],
            &[ValueKind::Control, ValueKind::Control],
        );
        let outs = [self.f.node_outputs(node)[0], self.f.node_outputs(node)[1]];
        self.f.graph_mut().add_node_input(then_region, outs[0]).unwrap();
        self.f.graph_mut().add_node_input(else_region, outs[1]).unwrap();
    }

    fn build_return(&mut self, value: Option<ValueId>, more: &[ValueId]) {
        let mut inputs = vec![self.ctrl, self.mem];
        inputs.extend(value);
        inputs.extend(more);
        self.make(NodeKind::Return, &inputs, &[]);
    }

    fn build(self) -> Function {
        self.f
    }
}

#[test]
fn create_then_kill_tracks_liveness() {
    let mut b = Builder::new();
    let root = b.build_int_const(1u64, ValueType::I64);
    b.build_return(Some(root), &[]);
    b.set_lift_addr(None);
    let mut function = b.build();

    let mut ctx = EditFunction::new(&mut function);

    let node = ctx.create_node(NodeKind::IntConst(cid(42)), &[], &[ValueKind::Typed(ValueType::I64)]);
    assert!(ctx.is_live(node), "freshly created node is live");
    assert!(ctx.is_root(node), "input-less fresh const is a root");

    ctx.kill_node(node);
    assert!(!ctx.is_live(node), "killed node is no longer live");
    assert!(!ctx.is_root(node), "killed node dropped from roots");
}

/// Modelled with an off-spine data cone that no entry-reachable node
/// consumes: created nodes are marked cache-live, but a fresh entry walk
/// never reaches them.
#[test]
fn resync_live_set_drops_cache_stale_unreachable_nodes() {
    let mut b = Builder::new();
    let root = b.build_int_const(1u64, ValueType::I64);
    b.build_return(Some(root), &[]);
    b.set_lift_addr(None);
    let mut function = b.build();

    let mut ctx = EditFunction::new(&mut function);

    // An off-spine chain x -> y, consumed by nothing entry-reachable.
    let x = ctx.create_node(NodeKind::IntConst(cid(7)), &[], &[ValueKind::Typed(ValueType::I64)]);
    let xv = ctx.function().node_outputs(x)[0];
    let y = ctx.create_node(NodeKind::IntUnaryOp(IntUnaryOp::Neg), &[xv], &[ValueKind::Typed(ValueType::I64)]);
    assert!(
        ctx.is_live(x) && ctx.is_live(y),
        "freshly created off-spine nodes are cache-live"
    );

    ctx.resync_live_set();

    assert!(
        !ctx.is_live(y),
        "resync drops the unreachable consumer from the live set"
    );
    assert!(
        !ctx.is_live(x),
        "resync drops the unreachable producer from the live set"
    );
}

/// Resurrecting a dead cone that is a structural twin of a live cacheable
/// node must schedule it for re-canonicalization.
#[test]
fn will_attach_value_resurrection_re_canonicalizes_twin() {
    let mut b = Builder::new();
    b.set_lift_addr(Some(0xA));
    let x = b.build_int_const(11u64, ValueType::I64);
    let y = b.build_int_const(22u64, ValueType::I64);
    let z = b.build_int_const(33u64, ValueType::I64);
    // A = Add(x, y): live (consumed by the Return), in the dedup cache.
    let a = b
        .build_int_binary_operation(x, y, IntBinaryOp::Add, ValueType::I64);
    // C = Add(x, z): a different shape, left orphaned so it is dead at
    // populate time.
    b.set_lift_addr(Some(0xC));
    let c = b
        .build_int_binary_operation(x, z, IntBinaryOp::Add, ValueType::I64);
    b.set_lift_addr(Some(0xA));
    b.build_return(Some(a), &[]);
    b.set_lift_addr(None);
    let mut function = b.build();

    let a_node = function.producer(a);
    let c_node = function.producer(c);
    let return_node = function
        .graph()
        .all_node_ids().into_iter()
        .find(|&n| matches!(function.node_kind(n), NodeKind::Return))
        .expect("a Return node");

    let mut ctx = EditFunction::new(&mut function);
    assert!(!ctx.is_live(c_node), "C starts dead (orphaned)");
    assert!(ctx.is_live(a_node), "A starts live");

    // While C is still DEAD, rewire its slot-1 (z) -> y so it becomes
    // structurally Add(x, y) == A. (Dead nodes aren't enqueued here.)
    let c_use_z = ctx.function().graph().node_input_id_at(c_node, 1).unwrap();
    ctx.update_input(c_use_z, y);

    // Resurrect C by appending its output as an extra Return value: the
    // attach marks C live AND enqueues it for re-canon.
    ctx.add_node_input(return_node, c).unwrap();
    assert!(ctx.is_live(c_node), "C is resurrected by the attach");

    ctx.clean();

    assert!(
        !ctx.is_live(c_node),
        "the resurrected twin C must be merged into A and culled, not leaked"
    );
    assert!(ctx.is_live(a_node), "the survivor A stays live");
    assert!(
        ctx.function()
            .side_tables()
            .asm_fingerprint(a_node)
            .contains(&0xC),
        "A absorbs C's asm address 0xC on merge (superset contract), got {:?}",
        ctx.function().side_tables().asm_fingerprint(a_node)
    );
}

/// `canonicalize_node`'s merge path is `expect`-guarded; a well-formed twin
/// merge must complete without panicking.
#[test]
fn canonicalize_node_merge_is_loud_on_broken_invariant() {
    let mut b = Builder::new();
    b.set_lift_addr(Some(0x1));
    let x = b.build_int_const(7u64, ValueType::I64);
    let y = b.build_int_const(8u64, ValueType::I64);
    let z = b.build_int_const(9u64, ValueType::I64);
    let a = b
        .build_int_binary_operation(x, y, IntBinaryOp::Add, ValueType::I64);
    let c = b
        .build_int_binary_operation(x, z, IntBinaryOp::Add, ValueType::I64);
    let top = b
        .build_int_binary_operation(a, c, IntBinaryOp::Add, ValueType::I64);
    b.build_return(Some(top), &[]);
    b.set_lift_addr(None);
    let mut function = b.build();

    let a_node = function.producer(a);
    let c_node = function.producer(c);

    let mut ctx = EditFunction::new(&mut function);
    // Rewire C's slot-1 (z) -> y so C becomes structurally Add(x, y) == A;
    // the ensuing `clean()` drives `canonicalize_node`.
    let c_use_z = ctx.function().graph().node_input_id_at(c_node, 1).unwrap();
    ctx.update_input(c_use_z, y);
    ctx.clean();

    assert!(!ctx.is_live(c_node), "the twin is merged + culled");
    assert!(ctx.is_live(a_node), "the survivor stays live");
}

/// A node rewired into a structural twin merges at `clean()`, and the
/// survivor absorbs the duplicate's asm-fingerprint.
#[test]
fn clean_merges_a_mutated_twin_and_absorbs_fingerprint() {
    let mut b = Builder::new();
    // A = Add(x, y) at addr 0xA; C = Add(x, z) at DISTINCT addr 0xC.
    b.set_lift_addr(Some(0xA));
    let x = b.build_int_const(1u64, ValueType::I64);
    let y = b.build_int_const(2u64, ValueType::I64);
    let z = b.build_int_const(3u64, ValueType::I64);
    let a = b
        .build_int_binary_operation(x, y, IntBinaryOp::Add, ValueType::I64);
    b.set_lift_addr(Some(0xC));
    let c = b
        .build_int_binary_operation(x, z, IntBinaryOp::Add, ValueType::I64);
    // top = Add(a, c) keeps BOTH A and C live.
    b.set_lift_addr(Some(0xA));
    let top = b
        .build_int_binary_operation(a, c, IntBinaryOp::Add, ValueType::I64);
    b.build_return(Some(top), &[]);
    b.set_lift_addr(None);
    let mut function = b.build();

    let a_node = function.producer(a);
    let c_node = function.producer(c);
    assert_ne!(a_node, c_node, "A and C start distinct");

    let mut ctx = EditFunction::new(&mut function);
    // Rewire C's slot 1 (z) -> y so C becomes structurally Add(x, y) == A.
    let c_use_z = ctx.function().graph().node_input_id_at(c_node, 1).unwrap();
    ctx.update_input(c_use_z, y);
    ctx.clean();

    assert!(
        !ctx.is_live(c_node),
        "the duplicate C is culled after canonicalization"
    );
    assert!(ctx.is_live(a_node), "the survivor A stays live");
    assert!(
        ctx.function()
            .side_tables()
            .asm_fingerprint(a_node)
            .contains(&0xC),
        "A absorbs C's asm address 0xC (superset contract), got {:?}",
        ctx.function().side_tables().asm_fingerprint(a_node)
    );
}

/// The core self-cleaning invariant: after `replace_value` + `clean` the
/// cached live set equals a fresh entry-reachable walk's.
#[test]
fn replace_value_then_clean_keeps_live_eq_reachable() {
    let mut b = Builder::new();
    b.set_lift_addr(Some(0x10));
    let c1 = b.build_int_const(5u64, ValueType::I64);
    let c2 = b.build_int_const(6u64, ValueType::I64);
    let add = b
        .build_int_binary_operation(c1, c2, IntBinaryOp::Add, ValueType::I64);
    b.build_return(Some(add), &[]);
    b.set_lift_addr(None);
    let mut function = b.build();

    let add_node = function.producer(add);

    let mut ctx = EditFunction::new(&mut function);
    ctx.cull_dead();

    let located = ctx
        .live_of_kind(|k: &NodeKind| matches!(k, NodeKind::IntBinaryOp(IntBinaryOp::Add)))
        .into_iter()
        .next()
        .expect("the Add must be live");
    assert_eq!(located, add_node, "live_of_kind located the Add");

    ctx.replace_value(add, c1).unwrap();
    ctx.clean();

    let fresh: BTreeSet<usize> = ctx.function().walk().into_iter().map(|n| n.0 as usize).collect();
    let cached: BTreeSet<usize> = ctx.live_snapshot().to_vec().iter().map(|n| n.0 as usize).collect();
    assert_eq!(
        cached, fresh,
        "cached live_nodes must equal the entry-reachable set after replace + clean"
    );

    assert!(!ctx.is_live(add_node), "replaced-away Add is culled");
    assert!(ctx.is_live(ctx.function().producer(c1)), "surviving c1 stays live");
}

/// Killing a cached node evicts its dedup-cache entry, so re-creating the
/// same shape mints a FRESH node; the killed id is never resurrected.
#[test]
fn kill_cached_node_then_recreate_yields_fresh_live_node() {
    let mut b = Builder::new();
    let root = b.build_int_const(1u64, ValueType::I64);
    b.build_return(Some(root), &[]);
    b.set_lift_addr(None);
    let mut function = b.build();
    let mut ctx = EditFunction::new(&mut function);

    let node = ctx.create_node(NodeKind::IntConst(cid(42)), &[], &[ValueKind::Typed(ValueType::I64)]);
    ctx.kill_node(node);
    assert!(!ctx.is_live(node));

    let recreated = ctx.create_node(NodeKind::IntConst(cid(42)), &[], &[ValueKind::Typed(ValueType::I64)]);
    assert_ne!(
        recreated, node,
        "the killed node's cache entry was evicted, so the same shape mints a fresh node"
    );
    assert!(ctx.is_live(recreated), "re-created node is live");
    assert!(
        ctx.is_root(recreated),
        "input-less re-created const is a root"
    );
}

#[test]
fn cull_dead_twice_is_idempotent() {
    let mut b = Builder::new();
    let root = b.build_int_const(5u64, ValueType::I64);
    // A dead consumer of the live const: a Neg whose output nothing uses.
    let dead_neg = b
        .build_int_unary_operation(root, IntUnaryOp::Neg, ValueType::I64);
    b.build_return(Some(root), &[]);
    b.set_lift_addr(None);
    let mut function = b.build();
    let dead_neg_node = function.producer(dead_neg);

    let mut ctx = EditFunction::new(&mut function);
    assert!(
        !ctx.is_live(dead_neg_node),
        "the unreachable Neg is excluded from the live set at populate"
    );

    ctx.cull_dead();
    assert!(
        ctx.function().node_inputs(dead_neg_node).is_empty(),
        "first cull detaches the dead consumer's inputs"
    );
    let live_after_first = ctx.live_snapshot();
    let roots_after_first = ctx.roots_snapshot();

    ctx.cull_dead();
    assert_eq!(
        ctx.live_snapshot().to_vec().iter().collect::<Vec<_>>(),
        live_after_first.to_vec().iter().collect::<Vec<_>>(),
        "second cull must not change the live set"
    );
    assert_eq!(
        ctx.roots_snapshot().to_vec().iter().collect::<Vec<_>>(),
        roots_after_first.to_vec().iter().collect::<Vec<_>>(),
        "second cull must not change the roots set"
    );
}

/// `replace_value` onto a value whose producer was dead at `new` time: the
/// attach resurrects it and its transitive input cone into the cached
/// live/roots state, and a later `clean` + `cull_dead` leaves it intact.
#[test]
fn replace_value_resurrects_previously_dead_producer() {
    let mut b = Builder::new();
    let c1 = b.build_int_const(5u64, ValueType::I64);
    let c2 = b.build_int_const(6u64, ValueType::I64);
    // Orphan producer: a Neg nothing consumes (unreachable at populate).
    let orphan = b
        .build_int_unary_operation(c2, IntUnaryOp::Neg, ValueType::I64);
    b.build_return(Some(c1), &[]);
    b.set_lift_addr(None);
    let mut function = b.build();
    let orphan_node = function.producer(orphan);
    let c2_node = function.producer(c2);

    let mut ctx = EditFunction::new(&mut function);
    assert!(
        !ctx.is_live(orphan_node),
        "orphan starts outside the live set"
    );
    assert!(
        !ctx.is_live(c2_node),
        "the orphan's operand starts dead too"
    );

    ctx.replace_value(c1, orphan).unwrap();

    assert!(
        ctx.is_live(orphan_node),
        "attach resurrects the orphan producer"
    );
    assert!(ctx.is_live(c2_node), "…and its transitive input cone");
    assert!(
        ctx.is_root(c2_node),
        "the resurrected input-less const is a root"
    );
    assert!(
        !ctx.is_root(orphan_node),
        "the Neg has an input, so it is not a root"
    );
    assert!(
        ctx.postorder().contains(&orphan_node),
        "the cached postorder visits the resurrected node"
    );

    ctx.clean();
    ctx.cull_dead();
    assert!(
        ctx.is_live(orphan_node),
        "cull_dead keeps the resurrected node"
    );
    let fresh: BTreeSet<usize> = ctx.function().walk().into_iter().map(|n| n.0 as usize).collect();
    let cached: BTreeSet<usize> = ctx.live_snapshot().to_vec().iter().map(|n| n.0 as usize).collect();
    assert_eq!(
        cached, fresh,
        "cached live_nodes must equal the entry-reachable set after resurrect + clean + cull"
    );
}

/// `update_input` onto a dead producer with a multi-node cone
/// (`Neg(Neg(k))`) resurrects the WHOLE cone, marking its leaf a root.
#[test]
fn update_input_resurrects_previously_dead_producer() {
    let mut b = Builder::new();
    let c1 = b.build_int_const(5u64, ValueType::I64);
    // A dead 3-node cone: Neg(Neg(k)), nothing consumes the outer Neg.
    let k = b.build_int_const(7u64, ValueType::I64);
    let inner = b
        .build_int_unary_operation(k, IntUnaryOp::Neg, ValueType::I64);
    let outer = b
        .build_int_unary_operation(inner, IntUnaryOp::Neg, ValueType::I64);
    b.build_return(Some(c1), &[]);
    b.set_lift_addr(None);
    let mut function = b.build();
    let k_node = function.producer(k);
    let inner_node = function.producer(inner);
    let outer_node = function.producer(outer);
    let return_node = function
        .graph()
        .all_node_ids().into_iter()
        .find(|&n| matches!(function.node_kind(n), NodeKind::Return))
        .expect("a Return node");

    let mut ctx = EditFunction::new(&mut function);
    for n in [k_node, inner_node, outer_node] {
        assert!(!ctx.is_live(n), "the whole orphan cone starts dead");
    }

    let slot = ctx
        .function()
        .node_inputs(return_node).iter()
        .into_iter()
        .position(|v| v == c1)
        .expect("Return consumes c1");
    let use_id = ctx.graph_ref().node_input_id_at(return_node, slot).unwrap();
    ctx.update_input(use_id, outer);

    for n in [k_node, inner_node, outer_node] {
        assert!(ctx.is_live(n), "the whole resurrected cone is live");
    }
    assert!(
        ctx.is_root(k_node),
        "the cone's input-less const becomes a root"
    );
    assert!(
        !ctx.is_root(inner_node),
        "inner Neg has an input — not a root"
    );
    assert!(
        !ctx.is_root(outer_node),
        "outer Neg has an input — not a root"
    );

    let post = ctx.postorder();
    for n in [k_node, inner_node, outer_node] {
        assert!(
            post.contains(&n),
            "cached postorder visits the resurrected cone"
        );
    }
}

/// `add_node_input` of a previously-dead producer's output: the appended
/// use resurrects the producer and its input cone.
#[test]
fn add_node_input_resurrects_previously_dead_producer() {
    let mut b = Builder::new();
    let c1 = b.build_int_const(5u64, ValueType::I64);
    let c2 = b.build_int_const(6u64, ValueType::I64);
    // Orphan producer: a Neg nothing consumes (unreachable at populate).
    let orphan = b
        .build_int_unary_operation(c2, IntUnaryOp::Neg, ValueType::I64);
    b.build_return(Some(c1), &[]);
    b.set_lift_addr(None);
    let mut function = b.build();
    let orphan_node = function.producer(orphan);
    let c2_node = function.producer(c2);
    let return_node = function
        .graph()
        .all_node_ids().into_iter()
        .find(|&n| matches!(function.node_kind(n), NodeKind::Return))
        .expect("a Return node");

    let mut ctx = EditFunction::new(&mut function);
    assert!(
        !ctx.is_live(orphan_node),
        "orphan starts outside the live set"
    );

    ctx.add_node_input(return_node, orphan).unwrap();

    assert!(
        ctx.is_live(orphan_node),
        "attach resurrects the orphan producer"
    );
    assert!(ctx.is_live(c2_node), "…and its transitive input cone");
    assert!(
        ctx.is_root(c2_node),
        "the resurrected input-less const is a root"
    );
    assert!(
        ctx.postorder().contains(&orphan_node),
        "the cached postorder visits the resurrected node"
    );
}

/// Attaching an already-live producer is the fast path: one set lookup, no
/// walk, cached state unchanged.
#[test]
fn attach_already_live_value_keeps_cached_state_unchanged() {
    let mut b = Builder::new();
    b.set_lift_addr(Some(0x10));
    let c1 = b.build_int_const(5u64, ValueType::I64);
    let c2 = b.build_int_const(6u64, ValueType::I64);
    let add = b
        .build_int_binary_operation(c1, c2, IntBinaryOp::Add, ValueType::I64);
    b.build_return(Some(add), &[]);
    b.set_lift_addr(None);
    let mut function = b.build();
    let return_node = function
        .graph()
        .all_node_ids().into_iter()
        .find(|&n| matches!(function.node_kind(n), NodeKind::Return))
        .expect("a Return node");

    let mut ctx = EditFunction::new(&mut function);
    let live_before = ctx.live_snapshot();
    let roots_before = ctx.roots_snapshot();

    let slot = ctx
        .function()
        .node_inputs(return_node).iter()
        .into_iter()
        .position(|v| v == add)
        .expect("Return consumes the Add");
    let use_id = ctx.graph_ref().node_input_id_at(return_node, slot).unwrap();
    ctx.update_input(use_id, c1);

    assert_eq!(
        ctx.live_snapshot().to_vec().iter().collect::<Vec<_>>(),
        live_before.to_vec().iter().collect::<Vec<_>>(),
        "attaching an already-live value must not change the live set"
    );
    assert_eq!(
        ctx.roots_snapshot().to_vec().iter().collect::<Vec<_>>(),
        roots_before.to_vec().iter().collect::<Vec<_>>(),
        "attaching an already-live value must not change the roots set"
    );
}

/// The orphan consumes a LIVE value, so it is raw-reachable from a live
/// root and `cull_dead`'s walk visits it.
#[test]
fn cull_dead_after_resurrect_keeps_node_and_validates() {
    let mut b = Builder::new();
    let c1 = b.build_int_const(5u64, ValueType::I64);
    // Orphan consuming the LIVE c1 (raw-reachable from the c1 root).
    let orphan = b
        .build_int_unary_operation(c1, IntUnaryOp::Neg, ValueType::I64);
    b.build_return(Some(c1), &[]);
    b.set_lift_addr(None);
    let mut function = b.build();
    let orphan_node = function.producer(orphan);
    let return_node = function
        .graph()
        .all_node_ids().into_iter()
        .find(|&n| matches!(function.node_kind(n), NodeKind::Return))
        .expect("a Return node");

    let mut ctx = EditFunction::new(&mut function);
    assert!(
        !ctx.is_live(orphan_node),
        "orphan starts outside the live set"
    );

    let slot = ctx
        .function()
        .node_inputs(return_node).iter()
        .into_iter()
        .position(|v| v == c1)
        .expect("Return consumes c1");
    let use_id = ctx.graph_ref().node_input_id_at(return_node, slot).unwrap();
    ctx.update_input(use_id, orphan);
    assert!(
        ctx.is_live(orphan_node),
        "attach resurrects the orphan producer"
    );

    ctx.cull_dead();
    assert!(
        ctx.is_live(orphan_node),
        "cull_dead must not kill the resurrected node"
    );
    assert!(
        !ctx.function().node_inputs(orphan_node).is_empty(),
        "the resurrected node's inputs stay attached"
    );
}

/// A value produced by an explicitly-killed side-effecting node must NOT
/// resurrect it.
#[test]
fn attach_output_of_killed_side_effecting_node_does_not_resurrect_it() {
    let mut b = Builder::new();
    let t = b.create_region_all();
    let f = b.create_region_all();
    let cond = b.build_boolean_const(true);
    b.build_if(cond, t, f);
    b.set_region(t);
    b.build_return(None, &[]);
    b.set_region(f);
    b.build_return(None, &[]);
    b.set_lift_addr(None);
    let mut function = b.build();

    let if_node = function
        .graph()
        .all_node_ids().into_iter()
        .find(|&n| matches!(function.node_kind(n), NodeKind::If))
        .expect("an If node");
    // If outputs are [ctrl_true, ctrl_false].
    let ctrl_false = function.node_outputs(if_node)[1];
    let return_node = function
        .graph()
        .all_node_ids().into_iter()
        .find(|&n| matches!(function.node_kind(n), NodeKind::Return))
        .expect("a Return node");

    let mut ctx = EditFunction::new(&mut function);
    ctx.kill_node(if_node);
    assert!(!ctx.is_live(if_node), "the killed If leaves the live set");

    // Attach the corpse's dangling control output to a live consumer.
    ctx.add_node_input(return_node, ctrl_false).unwrap();

    assert!(
        !ctx.is_live(if_node),
        "a side-effecting corpse must not be resurrected by an attach"
    );
    assert!(
        !ctx.is_root(if_node),
        "the detached (0-input) corpse must not become a cached root"
    );
}

/// Resurrecting a `Load` whose data cone reaches a `Store` on the memory
/// chain must mark that `Store` live too: `will_attach_value`'s exemption
/// covers CONTROL corpses only.
#[test]
fn resurrect_load_marks_its_memory_store_live() {
    let mut b = Builder::new();
    b.set_lift_addr(Some(0x10));
    let addr = b.build_int_const(0x1000u64, ValueType::I64);
    let data = b.build_int_const(0x42u64, ValueType::I64);
    // A dead Store->Load chain hung off the live InitialMemory, consumed by
    // nothing on the live spine.  Built via the low-level create_node so the
    // memory edge bypasses the builder's current-region threading.
    let init_mem = b.mem;
    let store_node = b.f.graph_mut().create_node(NodeKind::Store(VnSpace::ram()), &[init_mem, addr, data], &[ValueKind::Memory]);
    let store_mem = b.f.node_outputs_exact::<1>(store_node).unwrap()[0];
    let load_node = b.f.graph_mut().create_node(NodeKind::Load(VnSpace::ram()), &[store_mem, addr], &[ValueKind::Typed(ValueType::I64)]);
    let loaded = b.f.node_outputs_exact::<1>(load_node).unwrap()[0];
    // The live spine returns an unrelated const.
    let ret_val = b.build_int_const(1u64, ValueType::I64);
    b.build_return(Some(ret_val), &[]);
    b.set_lift_addr(None);
    let mut function = b.build();

    let return_node = function
        .graph()
        .all_node_ids().into_iter()
        .find(|&n| matches!(function.node_kind(n), NodeKind::Return))
        .expect("a Return node");

    // EditFunction::new does NOT cull, so the dead Store/Load chain is
    // present-but-not-live and still wired together.
    let mut ctx = EditFunction::new(&mut function);
    assert!(!ctx.is_live(load_node), "Load starts dead");
    assert!(!ctx.is_live(store_node), "Store starts dead");

    // Rewire the Return's value slot onto the dead Load's output; the Store
    // on its memory input must come live with it.
    let slot = ctx
        .function()
        .node_inputs(return_node).iter()
        .into_iter()
        .position(|v| v == ret_val)
        .expect("Return consumes ret_val");
    let use_id = ctx.graph_ref().node_input_id_at(return_node, slot).unwrap();
    ctx.update_input(use_id, loaded);

    assert!(ctx.is_live(load_node), "the resurrected Load is live");
    assert!(
        ctx.is_live(store_node),
        "the Store on the resurrected Load's memory input must be live too"
    );

    ctx.cull_dead();
    assert!(
        ctx.is_live(store_node),
        "cull_dead must not kill the in-use memory Store"
    );
}

/// Side-effecting (`Store`) and control (`Return`) nodes are never
/// enqueued or culled, even when a maybe-dead drain is forced over them.
#[test]
fn clean_keeps_side_effect_node() {
    let mut b = Builder::new();
    b.set_lift_addr(Some(0x10));
    let addr = b.build_int_const(0x1000u64, ValueType::I64);
    let data = b.build_int_const(0x42u64, ValueType::I64);
    b.build_store(addr, data, VnSpace::ram());
    let ret_val = b.build_int_const(1u64, ValueType::I64);
    b.build_return(Some(ret_val), &[]);
    b.set_lift_addr(None);
    let mut function = b.build();

    let store_node = function
        .graph()
        .all_node_ids().into_iter()
        .find(|&n| matches!(function.node_kind(n), NodeKind::Store(_)))
        .expect("a Store node");
    let return_node = function
        .graph()
        .all_node_ids().into_iter()
        .find(|&n| matches!(function.node_kind(n), NodeKind::Return))
        .expect("a Return node");

    let mut ctx = EditFunction::new(&mut function);
    ctx.cull_dead();

    // Force-enqueue both, then drain.
    ctx.enqueue_killed_def_node(store_node);
    ctx.enqueue_killed_def_node(return_node);
    ctx.clean();

    assert!(
        ctx.is_live(store_node),
        "Store (side-effecting) never culled"
    );
    assert!(ctx.is_live(return_node), "Return (control) never culled");
}

/// Collapsing a wide fan-in in one per-node batch: survivors keep their
/// original relative order in contiguous slots, and the Region pred `i` to
/// Phi input `i + 1` correspondence is preserved.
#[test]
fn remove_region_predecessors_wide_fanin_is_linear() {
    let mut b = Builder::new();
    b.build_return(None, &[]);
    b.set_lift_addr(None);
    let mut function = b.build();

    let mut ctx = EditFunction::new(&mut function);

    // One Control input per predecessor, the entry region's control output
    // reused verbatim for each slot.
    let entry = ctx.entry();
    let entry_ctrl = ctx.function().node_outputs(entry)[0];
    let fanin: usize = 8;
    let region = ctx.create_node(NodeKind::Region, &vec![entry_ctrl; fanin], &[ValueKind::Control, ValueKind::PhiToken]);
    let phi_token = ctx.function().node_outputs(region)[1];

    // A Phi over the Region: [phi_token, v0, ..., v7].  Distinct constants
    // so survivors are identifiable by value after the removal.
    let mut phi_inputs = vec![phi_token];
    let mut consts = Vec::new();
    for i in 0..fanin {
        let k = ctx.create_node(NodeKind::IntConst(cid(0xC0 + i as u64)), &[], &[ValueKind::Typed(ValueType::I64)]);
        let v = ctx.function().node_outputs(k)[0];
        consts.push(v);
        phi_inputs.push(v);
    }
    let phi = ctx.create_node(NodeKind::Phi, &phi_inputs, &[ValueKind::Typed(ValueType::I64)]);

    // Remove predecessors {1, 3, 6} in one batch (unsorted on purpose).
    ctx.remove_region_predecessors(region, &[3, 1, 6]).unwrap();

    assert_eq!(
        ctx.function().node_inputs(region).len(),
        fanin - 3,
        "5 of 8 Region predecessors survive"
    );

    // phi_token + the value inputs for the surviving preds {0,2,4,5,7}.
    let surviving: Vec<_> = ctx.function().node_inputs(phi).iter().into_iter().collect();
    let expected: Vec<_> = std::iter::once(phi_token)
        .chain([0usize, 2, 4, 5, 7].into_iter().map(|i| consts[i]))
        .collect();
    assert_eq!(
        surviving, expected,
        "surviving Phi value inputs keep original order, contiguous, token first"
    );
}

/// `roots` gets exactly the input-less reachable nodes (`Entry` + the two
/// operand consts); a dangling unreachable const stays out of the live set.
#[test]
fn populate_seeds_roots_and_live_set() {
    let mut b = Builder::new();

    b.set_lift_addr(Some(0x10));
    let k1 = b.build_int_const(7u64, ValueType::I64);
    let k2 = b.build_int_const(11u64, ValueType::I64);
    let sum = b
        .build_int_binary_operation(k1, k2, IntBinaryOp::Add, ValueType::I64);
    b.build_return(Some(sum), &[]);
    // Created but never wired into anything.
    let dangling = b.build_int_const(0xDEAD_u64, ValueType::I64);
    b.set_lift_addr(None);
    let function = b.build();

    let k1_node = function.producer(k1);
    let k2_node = function.producer(k2);
    let dangling_node = function.producer(dangling);
    let entry = function.entry();

    let state = FunctionState::populate(&function);

    for r in function.graph().all_node_ids() {
        if state.is_root(r) {
            assert!(
                function.graph().node_inputs(r).is_empty(),
                "root {r:?} must be input-less"
            );
        }
    }

    assert!(state.is_root(entry), "Entry must be a root");
    assert!(state.is_root(k1_node), "k1 const must be a root");
    assert!(state.is_root(k2_node), "k2 const must be a root");

    assert!(
        !state.is_live(dangling_node),
        "dangling unreachable const must not be live"
    );
    // Sanity: a distinct const node, not deduped with k1/k2.
    assert!(
        matches!(function.node_kind(dangling_node), NodeKind::IntConst(_)),
        "dangling node is an IntConst"
    );

    assert_eq!(state.queue_len(), 0, "queue starts empty");
}
