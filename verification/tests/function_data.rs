//! A function that is put together by hand, before and after compaction.

use strider_ir::function::func::Function;
use strider_ir::graph::compact::NodeIdRemap;
use strider_ir::node::{InitialVnId, NodeId, NodeKind, ValueKind, ValueType};
use strider_ir::target::{BuiltCallingConvention, Endianness, StackArgs, Vn, VnSpace};

fn vnid(n: usize) -> InitialVnId {
    InitialVnId(n as u32)
}

/// A function with its entry and the initial memory.
fn test_function() -> Function {
    let mut f = Function::new(
        BuiltCallingConvention::trivial(),
        Endianness::Little,
        Vec::new(),
    );
    f.graph_mut()
        .create_node(NodeKind::InitialMemory, &[], &[ValueKind::Memory]);
    f
}

fn int_const_node(f: &mut Function, v: u128, ty: ValueType) -> NodeId {
    let id = f.intern_int_const(v, ty);
    f.graph_mut()
        .create_node(NodeKind::IntConst(id), &[], &[ValueKind::Typed(ty)])
}

#[test]
fn function_records_entry_via_set_entry() {
    let mut f = test_function();
    let entry = f
        .graph_mut()
        .create_node(NodeKind::Entry, &[], &[ValueKind::Control]);
    f.set_entry(entry);
    assert_eq!(f.entry(), entry);
}

#[test]
fn data_function_asm_fingerprint_round_trips() {
    let mut f = test_function();
    let n = f
        .graph_mut()
        .create_node(NodeKind::Entry, &[], &[ValueKind::Control]);
    f.side_tables_mut().extend_asm_fingerprint(n, &[0xDEAD_BEEF]);
    assert_eq!(f.side_tables().asm_fingerprint(n), &[0xDEAD_BEEF]);
}

#[test]
fn data_arg_index_to_values_returns_empty_for_unregistered() {
    let f = test_function();
    assert!(f.side_tables().arg_index_to_values(0).is_empty());
    assert!(f.side_tables().arg_index_to_values(99).is_empty());
}

#[test]
fn data_register_arg_value_supports_multiple_values_per_index() {
    let mut f = test_function();
    let n1 = f
        .graph_mut()
        .create_node(NodeKind::Entry, &[], &[ValueKind::Control]);
    let n2 = f
        .graph_mut()
        .create_node(NodeKind::InitialMemory, &[], &[ValueKind::Memory]);
    let v1 = f.node_outputs(n1)[0];
    let v2 = f.node_outputs(n2)[0];

    // Register two values for arg index 3 (the stack-args multi-Load case).
    f.side_tables_mut().register_arg_value(3, v1);
    f.side_tables_mut().register_arg_value(3, v2);

    let values = f.side_tables().arg_index_to_values(3);
    assert_eq!(values.len(), 2);
    assert!(values.contains(&v1));
    assert!(values.contains(&v2));

    // iter_arg_indices contains the registered index.
    assert!(f.side_tables().iter_arg_indices().contains(&3));
}

/// `get_vn_for_value` round-trips via the ValueId-keyed map.
#[test]
fn data_get_vn_for_value_round_trips_via_value_key() {
    let mut f = test_function();
    let phi = f
        .graph_mut()
        .create_node(NodeKind::Phi, &[], &[ValueKind::Typed(ValueType::I64)]);
    let phi_value = f.node_outputs(phi)[0];
    let vn = Vn {
        size: 8,
        addr_off: 0x20,
        addr_space: VnSpace::register(),
    };
    f.set_all_vns(vec![vn]);
    assert_eq!(f.get_vn_for_value(phi_value), None);
    f.set_vn_for_value(phi_value, vn);
    assert_eq!(f.get_vn_for_value(phi_value), Some(vn));
}

/// `arg_index_to_values` stores a carrier's value and `producer` recovers
/// the carrier node.
#[test]
fn data_arg_index_to_values_recovers_carrier_node_via_producer() {
    let mut f = test_function();
    let carrier = f.graph_mut().create_node(NodeKind::InitialVar(vnid(0)), &[], &[ValueKind::Typed(ValueType::I64)]);
    let value = f.node_outputs(carrier)[0];
    f.side_tables_mut().register_arg_value(0, value);

    assert_eq!(f.side_tables().arg_index_to_values(0), &[value]);
    assert_eq!(f.producer(value), carrier);
}

#[test]
fn data_compact_remaps_entry_and_drops_zombies() {
    let mut f = test_function();
    let entry = f
        .graph_mut()
        .create_node(NodeKind::Entry, &[], &[ValueKind::Control]);
    let _zombie = int_const_node(&mut f, 0xdead, ValueType::I64);
    f.set_entry(entry);
    let pre_count = f.graph().all_node_ids().into_iter().count();

    let _remap = f.compact().expect("compact succeeds on a valid function");

    let post_count = f.graph().all_node_ids().into_iter().count();
    assert!(post_count < pre_count, "compact must shrink the graph");
    // entry was remapped; new entry id still has the Control output.
    let entry_id = f.entry();
    let outs: Vec<_> = f.node_outputs(entry_id).to_vec();
    assert_eq!(outs.len(), 1);
    assert_eq!(f.value_kind(outs[0]), ValueKind::Control);
}

/// A SURVIVING `stack_offsets` entry is remapped through compaction on
/// BOTH coordinates: its key (`NodeId`) and its value's base
/// (`ValueId`).  A zombie allocated before the live nodes forces a
/// non-trivial id shift, so the test fails if either side is left
/// unremapped.  (The drop-on-death side is pinned by
/// `retain_reachable_drops_side_table_entry_for_dropped_node`.)
#[test]
fn data_compact_remaps_surviving_stack_offset_entry() {
    let mut f = test_function();
    // Zombie FIRST so the surviving nodes' ids shift during compaction.
    let zombie = int_const_node(&mut f, 0xdead, ValueType::I64);
    let entry = f
        .graph_mut()
        .create_node(NodeKind::Entry, &[], &[ValueKind::Control]);
    f.set_entry(entry);
    let mem = f
        .graph_mut()
        .create_node(NodeKind::InitialMemory, &[], &[ValueKind::Memory]);
    let [entry_ctrl] = f.node_outputs_exact::<1>(entry).unwrap();
    let [mem_value] = f.node_outputs_exact::<1>(mem).unwrap();
    let base = int_const_node(&mut f, 0x7000, ValueType::I64);
    let [base_value] = f.node_outputs_exact::<1>(base).unwrap();
    let ret = f.graph_mut().create_node(
        NodeKind::Return,
        &[entry_ctrl, mem_value, base_value],
        &[],
    );
    f.set_stack_offset(ret, base_value, -16);

    let remap = f.compact().expect("compact must succeed");

    assert!(
        remap.node_old_to_new(zombie).is_none(),
        "zombie must be dropped"
    );
    let new_ret = remap.node_old_to_new(ret).expect("Return survives");
    let new_base_value = remap
        .output_old_to_new(base_value)
        .expect("base value survives");
    assert_ne!(
        new_ret, ret,
        "the zombie ahead of it must shift the Return's id"
    );
    assert_eq!(
        f.stack_offset(new_ret),
        Some((new_base_value, -16)),
        "surviving stack_offsets entry must be remapped on key AND base"
    );
}

/// Asm-fingerprints survive compaction on every reachable node.
/// A node remap must carry the fingerprint side-
/// table through to its new NodeId.  Otherwise pattern queries
/// against optimised IR lose contributor-asm attribution for any
/// surviving node whose id was remapped.
#[test]
fn data_retain_reachable_preserves_asm_fingerprint_on_surviving_node() {
    let mut f = test_function();
    let entry = f
        .graph_mut()
        .create_node(NodeKind::Entry, &[], &[ValueKind::Control]);
    let mem = f
        .graph_mut()
        .create_node(NodeKind::InitialMemory, &[], &[ValueKind::Memory]);
    let [entry_ctrl] = f.node_outputs_exact::<1>(entry).unwrap();
    let [mem_value] = f.node_outputs_exact::<1>(mem).unwrap();
    // Reachable IntConst whose Return-input consumer keeps it live.
    let surviving = int_const_node(&mut f, 0xCAFE, ValueType::I64);
    let [surv_value] = f.node_outputs_exact::<1>(surviving).unwrap();
    let _ret =
        f.graph_mut()
            .create_node(NodeKind::Return, &[entry_ctrl, mem_value, surv_value], &[]);
    f.set_entry(entry);

    // Stamp three asm addresses on the surviving IntConst before compact.
    f.side_tables_mut().extend_asm_fingerprint(surviving, &[0x1000, 0x1004, 0x1008]);

    let remap = f.compact().expect("compact must succeed");
    let new_id = remap
        .node_old_to_new(surviving)
        .expect("surviving IntConst must remain after compact");
    assert_eq!(
        f.side_tables().asm_fingerprint(new_id),
        &[0x1000, 0x1004, 0x1008],
        "surviving node's asm-fingerprint must transfer to its post-compact NodeId"
    );
}

/// A cacheable zombie node that has no live uses must be absent after
/// `Function::compact`.  Guards against compaction skipping
/// detached-but-still-arena-present nodes.
#[test]
fn data_retain_reachable_drops_zombie_node() {
    let mut f = test_function();
    // Entry + InitialMemory + a Return (minimal reachable graph).
    let entry = f
        .graph_mut()
        .create_node(NodeKind::Entry, &[], &[ValueKind::Control]);
    let mem = f
        .graph_mut()
        .create_node(NodeKind::InitialMemory, &[], &[ValueKind::Memory]);
    let [entry_ctrl] = f.node_outputs_exact::<1>(entry).unwrap();
    let [mem_value] = f.node_outputs_exact::<1>(mem).unwrap();
    let _ret = f
        .graph_mut()
        .create_node(NodeKind::Return, &[entry_ctrl, mem_value], &[]);
    f.set_entry(entry);

    // Zombie: a cacheable IntConst not connected to anything reachable.
    let zombie = int_const_node(&mut f, 0xC0FFEE, ValueType::I64);

    // Zombie must be in the arena before compact.
    let pre_ids: Vec<_> = f.graph().all_node_ids().into_iter().collect();
    assert!(
        pre_ids.contains(&zombie),
        "zombie must be present before compact"
    );

    let _remap: NodeIdRemap = f.compact().expect("compact must succeed");

    // After compact the zombie NodeId is invalid; verify by checking
    // that the remap returns None for it (it was dropped).
    assert!(
        _remap.node_old_to_new(zombie).is_none(),
        "zombie must be dropped by compact"
    );
    // Node count must decrease.
    assert!(
        f.graph().all_node_ids().into_iter().count() < pre_ids.len(),
        "compact must remove unreachable nodes"
    );
}

/// The `value_vn` and `stack_offsets` side-tables must NOT contain
/// stale entries pointing to zombie (dropped) NodeIds after compaction.
#[test]
fn data_retain_reachable_drops_side_table_entry_for_dropped_node() {
    let mut f = test_function();
    let entry = f
        .graph_mut()
        .create_node(NodeKind::Entry, &[], &[ValueKind::Control]);
    let mem = f
        .graph_mut()
        .create_node(NodeKind::InitialMemory, &[], &[ValueKind::Memory]);
    let [entry_ctrl] = f.node_outputs_exact::<1>(entry).unwrap();
    let [mem_value] = f.node_outputs_exact::<1>(mem).unwrap();
    let _ret = f
        .graph_mut()
        .create_node(NodeKind::Return, &[entry_ctrl, mem_value], &[]);
    f.set_entry(entry);

    // Zombie Phi node with a value_vn entry.
    let zombie_phi =
        f.graph_mut()
            .create_node(NodeKind::Phi, &[], &[ValueKind::Typed(ValueType::I64)]);
    let dead_vn = Vn {
        size: 8,
        addr_off: 0x88,
        addr_space: VnSpace::register(),
    };
    let zombie_phi_value = f.node_outputs(zombie_phi)[0];
    f.set_all_vns(vec![dead_vn]);
    f.set_vn_for_value(zombie_phi_value, dead_vn);
    assert_eq!(
        f.get_vn_for_value(zombie_phi_value),
        Some(dead_vn),
        "tag must be set before compact"
    );

    // Zombie IntConst node with a stack_offsets entry.
    let zombie_stack = int_const_node(&mut f, 0xBEEF, ValueType::I64);
    let zombie_value = f.node_outputs(zombie_stack).iter().copied().next().unwrap();
    f.set_stack_offset(zombie_stack, zombie_value, -8);
    assert_eq!(
        f.stack_offset(zombie_stack),
        Some((zombie_value, -8)),
        "offset must be set before compact"
    );

    let remap = f.compact().expect("compact must succeed");

    // Both zombies must have been dropped.
    assert!(remap.node_old_to_new(zombie_phi).is_none());
    assert!(remap.node_old_to_new(zombie_stack).is_none());

    // Side-table entries for dropped nodes must not exist.  `value_vn`
    // is a `ValueId`-keyed `FxHashMap` rebuilt over only surviving values;
    // `stack_offset` is a `SecondaryMap<NodeId, Option<_>>` rebuilt over
    // only surviving nodes.  In both cases the dropped zombies' entries
    // are gone.  We verify indirectly: no surviving node carries the
    // tag/offset.
    let surviving_with_tag = f.graph().all_node_ids().into_iter().any(|n| {
        f.node_outputs(n)
            .first()
            .copied()
            .and_then(|v| f.get_vn_for_value(v))
            == Some(dead_vn)
    });
    assert!(
        !surviving_with_tag,
        "dead_vn value_vn tag must not survive compaction"
    );
    let surviving_with_offset = f
        .graph()
        .all_node_ids().into_iter()
        .any(|n| f.stack_offset(n).map(|(_, o)| o) == Some(-8));
    assert!(
        !surviving_with_offset,
        "stack_offset -8 must not survive compaction on a surviving node"
    );
}

/// The `arg_index_to_values` side-table must be remapped through the
/// compaction translation, like every other overlay.
/// The orchestrator's default finalize path runs the
/// destructive pipeline (which removes nodes) and then `compact()`,
/// while `FunctionArgDetect` (the pass that populates
/// `arg_index_to_values`) runs only in the *stable* pipeline — so the
/// carrier values stored before compaction must be translated to their
/// post-compaction values, otherwise `function_arg(N)` pattern queries and
/// dot rendering read stale / aliased values.
#[test]
fn data_compact_remaps_arg_index_to_values() {
    let mut f = test_function();
    let entry = f
        .graph_mut()
        .create_node(NodeKind::Entry, &[], &[ValueKind::Control]);
    let mem = f
        .graph_mut()
        .create_node(NodeKind::InitialMemory, &[], &[ValueKind::Memory]);
    // A zombie created *before* the arg carrier so that compaction
    // reassigns the carrier's NodeId (the zombie's slot is dropped).
    let _zombie = int_const_node(&mut f, 0xDEAD, ValueType::I64);
    // The arg carrier: a register-arg-style InitialVar kept live by Return.
    let arg_node = f.graph_mut().create_node(NodeKind::InitialVar(vnid(0)), &[], &[ValueKind::Typed(ValueType::I64)]);
    let [entry_ctrl] = f.node_outputs_exact::<1>(entry).unwrap();
    let [mem_value] = f.node_outputs_exact::<1>(mem).unwrap();
    let [arg_value] = f.node_outputs_exact::<1>(arg_node).unwrap();
    let _ret =
        f.graph_mut()
            .create_node(NodeKind::Return, &[entry_ctrl, mem_value, arg_value], &[]);
    f.set_entry(entry);
    f.side_tables_mut().register_arg_value(0, arg_value);

    let remap = f.compact().expect("compact must succeed");
    let new_arg_value = remap
        .output_old_to_new(arg_value)
        .expect("the live arg carrier value must survive compaction");

    assert_eq!(
        f.side_tables().arg_index_to_values(0),
        &[new_arg_value],
        "arg_index_to_values must carry the carrier's post-compaction value"
    );
    // Every stored carrier value's producer must be a live node.
    for &v in f.side_tables().arg_index_to_values(0) {
        let node = f.producer(v);
        assert!(
            f.graph().all_node_ids().into_iter().any(|n| n == node),
            "arg carrier producer {node:?} must be a live post-compaction node"
        );
    }
}

/// After compact, a `value_vn` entry on an unreachable Phi is dropped while a
/// reachable Phi's tag survives (keyed by the Phi's surviving value).
#[test]
fn data_compact_keeps_reachable_phi_tag_drops_unreachable() {
    let mut f = test_function();
    let entry = f
        .graph_mut()
        .create_node(NodeKind::Entry, &[], &[ValueKind::Control]);
    let mem = f
        .graph_mut()
        .create_node(NodeKind::InitialMemory, &[], &[ValueKind::Memory]);
    // A reachable Phi kept live by Return.
    let live_phi =
        f.graph_mut()
            .create_node(NodeKind::Phi, &[], &[ValueKind::Typed(ValueType::I64)]);
    let [entry_ctrl] = f.node_outputs_exact::<1>(entry).unwrap();
    let [mem_value] = f.node_outputs_exact::<1>(mem).unwrap();
    let [live_phi_value] = f.node_outputs_exact::<1>(live_phi).unwrap();
    let _ret = f.graph_mut().create_node(NodeKind::Return, &[entry_ctrl, mem_value, live_phi_value], &[]);
    f.set_entry(entry);

    // Unreachable Phi (not wired to anything reachable).
    let dead_phi =
        f.graph_mut()
            .create_node(NodeKind::Phi, &[], &[ValueKind::Typed(ValueType::I64)]);

    let live_vn = Vn {
        size: 8,
        addr_off: 0x10,
        addr_space: VnSpace::register(),
    };
    let dead_vn = Vn {
        size: 8,
        addr_off: 0x88,
        addr_space: VnSpace::register(),
    };
    let dead_phi_value = f.node_outputs(dead_phi)[0];
    f.set_all_vns(vec![live_vn, dead_vn]);
    f.set_vn_for_value(live_phi_value, live_vn);
    f.set_vn_for_value(dead_phi_value, dead_vn);

    let remap = f.compact().expect("compact must succeed");
    let new_live_phi = remap
        .node_old_to_new(live_phi)
        .expect("reachable phi must survive compaction");
    let new_live_phi_value = remap
        .output_old_to_new(live_phi_value)
        .expect("reachable phi value must survive compaction");

    assert_eq!(
        f.get_vn_for_value(new_live_phi_value),
        Some(live_vn),
        "reachable phi's tag must survive compaction"
    );
    let _ = new_live_phi; // kept to document the remap usage
    assert!(
        remap.node_old_to_new(dead_phi).is_none(),
        "unreachable phi must be dropped"
    );
    // No surviving node carries the dead tag.
    assert!(
        !f.graph().all_node_ids().into_iter().any(|n| f
            .node_outputs(n)
            .first()
            .copied()
            .and_then(|v| f.get_vn_for_value(v))
            == Some(dead_vn)),
        "dead phi tag must not survive compaction"
    );
}

/// After compact, a pruned arg carrier's value is dropped from
/// `arg_index_to_values`; a surviving one is recoverable via `producer`.
#[test]
fn data_compact_drops_pruned_arg_value_keeps_surviving() {
    let mut f = test_function();
    let entry = f
        .graph_mut()
        .create_node(NodeKind::Entry, &[], &[ValueKind::Control]);
    let mem = f
        .graph_mut()
        .create_node(NodeKind::InitialMemory, &[], &[ValueKind::Memory]);
    let live_vn = Vn {
        size: 8,
        addr_off: 0x10,
        addr_space: VnSpace::register(),
    };
    let live_carrier = f.graph_mut().create_node(NodeKind::InitialVar(vnid(0)), &[], &[ValueKind::Typed(ValueType::I64)]);
    let [entry_ctrl] = f.node_outputs_exact::<1>(entry).unwrap();
    let [mem_value] = f.node_outputs_exact::<1>(mem).unwrap();
    let [live_value] = f.node_outputs_exact::<1>(live_carrier).unwrap();
    let _ret =
        f.graph_mut()
            .create_node(NodeKind::Return, &[entry_ctrl, mem_value, live_value], &[]);
    f.set_entry(entry);

    // A pruned (unreachable) carrier for a different arg index.
    let dead_vn = Vn {
        size: 8,
        addr_off: 0x18,
        addr_space: VnSpace::register(),
    };
    let dead_carrier = f.graph_mut().create_node(NodeKind::InitialVar(vnid(1)), &[], &[ValueKind::Typed(ValueType::I64)]);
    let [dead_value] = f.node_outputs_exact::<1>(dead_carrier).unwrap();

    f.side_tables_mut().register_arg_value(0, live_value);
    f.side_tables_mut().register_arg_value(1, dead_value);

    f.compact().expect("compact must succeed");

    // arg 1's value was pruned → index removed entirely.
    assert!(
        f.side_tables().arg_index_to_values(1).is_empty(),
        "pruned arg value must be dropped"
    );
    // arg 0 survives → producer recovers the live carrier.
    let surviving = f.side_tables().arg_index_to_values(0);
    assert_eq!(surviving.len(), 1);
    let node = f.producer(surviving[0]);
    assert!(matches!(f.node_kind(node), NodeKind::InitialVar(_)));
}

/// A Call clobber output's value maps to its clobbered varnode via
/// `value_vn` (the `get_vn_for_value` accessor), recoverable per-output.
#[test]
fn data_clobber_output_value_maps_to_vn_via_value_vn() {
    let mut f = test_function();
    // A Call with one clobber output [Control, Memory, clobber].
    let call = f.graph_mut().create_node(NodeKind::Call { cc: None }, &[], &[
            ValueKind::Control,
            ValueKind::Memory,
            ValueKind::Typed(ValueType::I64),
        ]);
    let clobber_value = f.node_outputs(call)[2];
    let vn = Vn {
        size: 8,
        addr_off: 0x40,
        addr_space: VnSpace::register(),
    };
    f.set_all_vns(vec![vn]);
    assert_eq!(f.get_vn_for_value(clobber_value), None);
    f.set_vn_for_value(clobber_value, vn);
    // Recoverable per-output: the clobber output value carries its Vn.
    assert_eq!(f.get_vn_for_value(clobber_value), Some(vn));
    // Control / Memory outputs carry no clobber tag.
    assert_eq!(f.get_vn_for_value(f.node_outputs(call)[0]), None);
    assert_eq!(f.get_vn_for_value(f.node_outputs(call)[1]), None);
}

/// `call_cc` round-trips and its stack-arg offsets are what the derived
/// `call_stack_args_override` accessor returns; compact remaps
/// both the per-Call `call_cc` and the per-output clobber `value_vn`.
#[test]
fn data_compact_remaps_call_cc_and_clobber_value_vn() {
    let mut cc = BuiltCallingConvention::trivial();
    cc.stack_args = Some(StackArgs { base_offset: 8, increment: 8 });

    let mut f = test_function();
    let entry = f
        .graph_mut()
        .create_node(NodeKind::Entry, &[], &[ValueKind::Control]);
    let mem = f
        .graph_mut()
        .create_node(NodeKind::InitialMemory, &[], &[ValueKind::Memory]);
    // A zombie created before the Call so compaction reassigns ids.
    let _zombie = int_const_node(&mut f, 0xDEAD, ValueType::I64);
    let [entry_ctrl] = f.node_outputs_exact::<1>(entry).unwrap();
    let [mem_value] = f.node_outputs_exact::<1>(mem).unwrap();
    let target = int_const_node(&mut f, 0x1000, ValueType::I64);
    let [target_value] = f.node_outputs_exact::<1>(target).unwrap();
    // Call with one clobber output, kept live by Return consuming its
    // ctrl/mem outputs.
    let call = f.graph_mut().create_node(NodeKind::Call { cc: None }, &[entry_ctrl, mem_value, target_value], &[
            ValueKind::Control,
            ValueKind::Memory,
            ValueKind::Typed(ValueType::I64),
        ]);
    let [call_ctrl, call_mem, clob] = f.node_outputs_exact::<3>(call).unwrap();
    let clob_vn = Vn {
        size: 8,
        addr_off: 0x40,
        addr_space: VnSpace::register(),
    };
    f.set_all_vns(vec![clob_vn]);
    f.set_vn_for_value(clob, clob_vn);
    f.side_tables_mut().set_call_cc(call, cc.duplicate());
    let _ret = f
        .graph_mut()
        .create_node(NodeKind::Return, &[call_ctrl, call_mem], &[]);
    f.set_entry(entry);

    // Pre-compact: round-trips.
    assert!(f.side_tables().call_cc(call).is_some());
    assert_eq!(f.call_stack_args_override(call), cc.stack_args,);
    assert_eq!(f.get_vn_for_value(clob), Some(clob_vn));

    let remap = f.compact().expect("compact must succeed");
    let new_call = remap
        .node_old_to_new(call)
        .expect("live Call must survive compaction");
    let new_clob = remap
        .output_old_to_new(clob)
        .expect("live clobber output value must survive compaction");

    // call_cc survives the NodeId remap; stack-arg offsets still derive.
    assert!(f.side_tables().call_cc(new_call).is_some());
    assert_eq!(f.call_stack_args_override(new_call), cc.stack_args,);
    // The clobber tag survives the ValueId remap.
    assert_eq!(f.get_vn_for_value(new_clob), Some(clob_vn));
}

/// Stack slots are kept by node: two accesses through one address do not share
/// one, and a slot recorded for the node comes before that of its address.
#[test]
fn stack_offsets_belong_to_their_node() {
    let mut f = test_function();
    let mem = f
        .graph_mut()
        .create_node(NodeKind::InitialMemory, &[], &[ValueKind::Memory]);
    let [mem_value] = f.node_outputs_exact::<1>(mem).unwrap();
    let base = int_const_node(&mut f, 0x7000, ValueType::I64);
    let [base_value] = f.node_outputs_exact::<1>(base).unwrap();
    let load = f.graph_mut().create_node(
        NodeKind::Load(VnSpace::ram()),
        &[mem_value, base_value],
        &[ValueKind::Typed(ValueType::I64)],
    );
    let store = f.graph_mut().create_node(
        NodeKind::Store(VnSpace::ram()),
        &[mem_value, base_value, base_value],
        &[ValueKind::Memory],
    );
    f.set_stack_offset(load, base_value, -16);
    assert_eq!(f.stack_offset(load), Some((base_value, -16)));
    assert_eq!(f.stack_offset(store), None);
    assert_eq!(f.stack_offset(base), None);
    f.side_tables_mut().set_stack_slot(base_value, base_value, 8);
    assert_eq!(f.stack_offset(load), Some((base_value, -16)));
    assert_eq!(f.stack_offset(store), Some((base_value, 8)));
    assert_eq!(f.stack_offset(base), None);
}
