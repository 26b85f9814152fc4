//! A function and its side tables, before and after compaction.

use strider_ir::const_value::ConstValue;
use strider_ir::function::func::Function;
use strider_ir::graph::compact::NodeIdRemap;
use strider_ir::node::{InitialVnId, IntBinaryOp, NodeId, NodeKind, ValueKind, ValueType};
use strider_ir::target::{BuiltCallingConvention, Endianness, StackArgs, Vn, VnSpace};

fn vnid(n: usize) -> InitialVnId {
    InitialVnId(n as u32)
}

/// A function with its entry and the initial memory.
fn test_function() -> Function {
    let mut f = Function::new(
        BuiltCallingConvention::trivial(),
        Endianness::Little,
        Vec::new(),
    );
    f.graph_mut()
        .create_node(NodeKind::InitialMemory, &[], &[ValueKind::Memory]);
    f
}

fn test_initial_memory(f: &Function) -> NodeId {
    f.graph()
        .all_node_ids()
        .into_iter()
        .find(|&n| matches!(f.node_kind(n), NodeKind::InitialMemory))
        .unwrap()
}

fn int_const_node(f: &mut Function, v: u128, ty: ValueType) -> NodeId {
    let id = f.intern_int_const(v, ty);
    f.graph_mut()
        .create_node(NodeKind::IntConst(id), &[], &[ValueKind::Typed(ty)])
}

#[test]
fn function_new_builds_entry_and_initial_memory_skeleton() {
    let f = test_function();
    let ids: Vec<_> = f.graph().all_node_ids().into_iter().collect();
    assert_eq!(ids.len(), 2, "new() builds exactly Entry + InitialMemory");
    assert!(matches!(f.node_kind(ids[0]), NodeKind::Entry));
    assert!(matches!(f.node_kind(ids[1]), NodeKind::InitialMemory));
    assert_eq!(
        f.entry(),
        ids[0],
        "entry() points at the Entry node (node 0)"
    );
}

#[test]
fn function_asm_fingerprint_round_trips() {
    let mut f = test_function();
    let n = f.entry();
    f.side_tables_mut()
        .extend_asm_fingerprint(n, &[0xDEAD_BEEF]);
    assert_eq!(
        f.side_tables().asm_fingerprint(n),
        &[0xDEAD_BEEF][..]
    );
}

#[test]
fn arg_index_to_values_returns_empty_for_unregistered() {
    let f = test_function();
    assert!(f.side_tables().arg_index_to_values(0).is_empty());
    assert!(f.side_tables().arg_index_to_values(99).is_empty());
}

#[test]
fn register_arg_value_supports_multiple_values_per_index() {
    let mut f = test_function();
    let n1 = f
        .graph_mut()
        .create_node(NodeKind::Entry, &[], &[ValueKind::Control]);
    let n2 = f
        .graph_mut()
        .create_node(NodeKind::InitialMemory, &[], &[ValueKind::Memory]);
    let v1 = f.node_outputs(n1)[0];
    let v2 = f.node_outputs(n2)[0];

    // The stack-args multi-Load case: two values on one index.
    f.side_tables_mut().register_arg_value(3, v1);
    f.side_tables_mut().register_arg_value(3, v2);

    let values = f.side_tables().arg_index_to_values(3);
    assert_eq!(values.len(), 2);
    assert!(values.contains(&v1));
    assert!(values.contains(&v2));

    assert!(f.side_tables().iter_arg_indices().contains(&3));
}

#[test]
fn get_vn_for_value_round_trips_via_value_key() {
    let mut f = test_function();
    let phi = f
        .graph_mut()
        .create_node(NodeKind::Phi, &[], &[ValueKind::Typed(ValueType::I64)]);
    let phi_value = f.node_outputs(phi)[0];
    let vn = Vn {
        size: 8,
        addr_off: 0x20,
        addr_space: VnSpace::register(),
    };
    f.set_all_vns(vec![vn]); // only a tracked vn can be tagged
    assert_eq!(f.get_vn_for_value(phi_value), None);
    f.set_vn_for_value(phi_value, vn);
    assert_eq!(f.get_vn_for_value(phi_value), Some(vn));
}

#[test]
fn arg_index_to_values_recovers_carrier_node_via_producer() {
    let mut f = test_function();
    let carrier = f.graph_mut().create_node(NodeKind::InitialVar(vnid(0)), &[], &[ValueKind::Typed(ValueType::I64)]);
    let value = f.node_outputs(carrier)[0];
    f.side_tables_mut().register_arg_value(0, value);

    assert_eq!(f.side_tables().arg_index_to_values(0), &[value]);
    assert_eq!(f.producer(value), carrier);
}

#[test]
fn compact_remaps_entry_and_drops_zombies() {
    let mut f = test_function();
    let _zombie = int_const_node(&mut f, 0xdead_u128, ValueType::I64);
    let pre_count = f.graph().all_node_ids().into_iter().count();

    let _remap = f.compact().expect("compact succeeds on a valid function");

    let post_count = f.graph().all_node_ids().into_iter().count();
    assert!(post_count < pre_count, "compact must shrink the graph");
    // The remapped entry id still carries the Control output.
    let entry_id = f.entry();
    let outs: Vec<_> = f.node_outputs(entry_id).to_vec();
    assert_eq!(outs.len(), 1);
    assert_eq!(f.value_kind(outs[0]), ValueKind::Control);
}

/// `retain_reachable` leaves the dedup cache keyed on PRE-compaction ids,
/// so `compact` has to rebuild it on every exit.  An `IntBinaryOp` shows it
/// where a bare const cannot: the cache key hashes the input `ValueId`s,
/// which compaction renumbers, so a stale table misses the survivor and the
/// next create allocates a structural duplicate of it.
#[test]
fn compact_rekeys_the_dedup_cache_to_the_new_ids() {
    let mut f = test_function();
    let entry = f.entry();
    let mem_node = test_initial_memory(&f);
    let mem = f.node_outputs(mem_node)[0];
    // Allocated FIRST, so dropping them shifts every surviving `ValueId`.
    for v in 0..4u128 {
        let _zombie = int_const_node(&mut f, 0xdead_0000 + v, ValueType::I64);
    }
    let a_node = int_const_node(&mut f, 7, ValueType::I64);
    let b_node = int_const_node(&mut f, 9, ValueType::I64);
    let a = f.node_outputs(a_node)[0];
    let b = f.node_outputs(b_node)[0];
    let sum = f.graph_mut().create_node(NodeKind::IntBinaryOp(IntBinaryOp::Add), &[a, b], &[ValueKind::Typed(ValueType::I64)]);
    let sum_value = f.node_outputs(sum)[0];
    let [entry_ctrl] = f.node_outputs_exact::<1>(entry).unwrap();
    let _ret = f
        .graph_mut()
        .create_node(NodeKind::Return, &[entry_ctrl, mem, sum_value], &[]);

    let remap = f.compact().expect("compact succeeds on a valid function");
    let sum = remap.node_old_to_new(sum).expect("the sum is reachable");
    let a = remap.output_old_to_new(a).expect("lhs is reachable");
    let b = remap.output_old_to_new(b).expect("rhs is reachable");

    let again = f.graph_mut().create_node(NodeKind::IntBinaryOp(IntBinaryOp::Add), &[a, b], &[ValueKind::Typed(ValueType::I64)]);
    assert_eq!(
        again, sum,
        "a deduping create after compact must find the survivor under its NEW ids"
    );
}

/// Collecting a wide const held only by a dropped node (interned first, so
/// id 0) forces the live one's id to shift.
#[test]
fn compact_gcs_and_remaps_surviving_wide_const() {
    // High limb set, so it stays `Wide`.
    const LIVE_LIMBS: [u64; 4] = [
        0x1122_3344_5566_7788,
        0x99AA_BBCC_DDEE_FF00,
        0,
        0x8000_0000_0000_0000,
    ];

    let mut f = test_function();
    let entry = f.entry();
    let mem = test_initial_memory(&f);
    // Interned first, so dropping it shifts the surviving const's id.
    let dropped_id = f.intern_int_const_limbs(&[0xAAAA_BBBB, 0, 0, 1], ValueType::I256);
    let _zombie = f.graph_mut().create_node(NodeKind::IntConst(dropped_id), &[], &[ValueKind::Typed(ValueType::I256)]);

    let [entry_ctrl] = f.node_outputs_exact::<1>(entry).unwrap();
    let [mem_value] = f.node_outputs_exact::<1>(mem).unwrap();

    // The live wide const, referenced by a reachable Return.
    let live_id = f.intern_int_const_limbs(&LIVE_LIMBS, ValueType::I256);
    let wide_node = f.graph_mut().create_node(NodeKind::IntConst(live_id), &[], &[ValueKind::Typed(ValueType::I256)]);
    let [wide_value] = f.node_outputs_exact::<1>(wide_node).unwrap();
    f.graph_mut()
        .create_node(NodeKind::Return, &[entry_ctrl, mem_value, wide_value], &[]);

    let remap = f.compact().expect("compact succeeds");

    let new_wide = remap
        .node_old_to_new(wide_node)
        .expect("the referenced wide const survives");
    let NodeKind::IntConst(new_id) = *f.node_kind(new_wide) else {
        panic!("expected IntConst(_), got {:?}", f.node_kind(new_wide));
    };
    match f.const_value(new_id) {
        ConstValue::Wide(limbs) => assert_eq!(
            limbs.as_slice(),
            &LIVE_LIMBS[..],
            "GC'd + remapped const id must still resolve to its value",
        ),
        other => panic!("expected a wide constant, got {other:?}"),
    }
}

/// A surviving `memory_offsets` entry must be remapped on BOTH coordinates:
/// its key and its interned base.  The zombie allocated ahead of the live
/// nodes forces a non-trivial id shift.
#[test]
fn compact_remaps_surviving_stack_offset_entry() {
    let mut f = test_function();
    let entry = f.entry();
    let mem = test_initial_memory(&f);
    let zombie = int_const_node(&mut f, 0xdead_u128, ValueType::I64);
    let [entry_ctrl] = f.node_outputs_exact::<1>(entry).unwrap();
    let [mem_value] = f.node_outputs_exact::<1>(mem).unwrap();
    let base = int_const_node(&mut f, 0x7000_u128, ValueType::I64);
    let [base_value] = f.node_outputs_exact::<1>(base).unwrap();
    let key = int_const_node(&mut f, 0x8000_u128, ValueType::I64);
    let [key_value] = f.node_outputs_exact::<1>(key).unwrap();
    // Feed both into the Return so the walk keeps them.
    let _ret = f.graph_mut().create_node(NodeKind::Return, &[entry_ctrl, mem_value, base_value, key_value], &[]);
    f.side_tables_mut()
        .set_stack_slot(key_value, base_value, -16);

    let remap = f.compact().expect("compact must succeed");

    assert!(
        remap.node_old_to_new(zombie).is_none(),
        "zombie must be dropped"
    );
    let new_key_value = remap
        .output_old_to_new(key_value)
        .expect("key value survives");
    let new_base_value = remap
        .output_old_to_new(base_value)
        .expect("base value survives");
    assert_ne!(
        new_key_value, key_value,
        "the zombie ahead of it must shift the value ids"
    );
    assert_eq!(
        f.side_tables().memory_slot_resolved(new_key_value),
        Some((new_base_value, -16)),
        "surviving memory_offsets entry must be remapped on key AND base"
    );
}

/// A node remap must carry the fingerprint through to the new NodeId.
#[test]
fn retain_reachable_preserves_asm_fingerprint_on_surviving_node() {
    let mut f = test_function();
    let entry = f.entry();
    let mem = test_initial_memory(&f);
    let [entry_ctrl] = f.node_outputs_exact::<1>(entry).unwrap();
    let [mem_value] = f.node_outputs_exact::<1>(mem).unwrap();
    // Kept live by its Return-input consumer.
    let surviving = int_const_node(&mut f, (0xCAFE_u64) as u128, ValueType::I64);
    let [surv_value] = f.node_outputs_exact::<1>(surviving).unwrap();
    let _ret =
        f.graph_mut()
            .create_node(NodeKind::Return, &[entry_ctrl, mem_value, surv_value], &[]);

    f.side_tables_mut()
        .extend_asm_fingerprint(surviving, &[0x1000, 0x1004, 0x1008]);

    let remap = f.compact().expect("compact must succeed");
    let new_id = remap
        .node_old_to_new(surviving)
        .expect("surviving IntConst must remain after compact");
    assert_eq!(
        f.side_tables().asm_fingerprint(new_id),
        &[0x1000, 0x1004, 0x1008][..],
        "surviving node's asm-fingerprint must transfer to its post-compact NodeId"
    );
}

/// Guards against compaction skipping detached-but-still-arena-present
/// nodes.
#[test]
fn retain_reachable_drops_zombie_node() {
    let mut f = test_function();
    // Entry + InitialMemory + a Return: the minimal reachable graph.
    let entry = f.entry();
    let mem = test_initial_memory(&f);
    let [entry_ctrl] = f.node_outputs_exact::<1>(entry).unwrap();
    let [mem_value] = f.node_outputs_exact::<1>(mem).unwrap();
    let _ret = f
        .graph_mut()
        .create_node(NodeKind::Return, &[entry_ctrl, mem_value], &[]);

    // A cacheable IntConst wired to nothing reachable.
    let zombie = int_const_node(&mut f, (0xC0FFEE_u64) as u128, ValueType::I64);

    let pre_ids: Vec<_> = f.graph().all_node_ids().into_iter().collect();
    assert!(
        pre_ids.contains(&zombie),
        "zombie must be present before compact"
    );

    let _remap: NodeIdRemap = f.compact().expect("compact must succeed");

    // The zombie NodeId is invalid post-compact, so probe the remap instead.
    assert!(
        _remap.node_old_to_new(zombie).is_none(),
        "zombie must be dropped by compact"
    );
    assert!(
        f.graph().all_node_ids().into_iter().count() < pre_ids.len(),
        "compact must remove unreachable nodes"
    );
}

/// `value_vn` and `memory_offsets` must hold no entries pointing at dropped
/// nodes after compaction.
#[test]
fn retain_reachable_drops_side_table_entry_for_dropped_node() {
    let mut f = test_function();
    let entry = f.entry();
    let mem = test_initial_memory(&f);
    let [entry_ctrl] = f.node_outputs_exact::<1>(entry).unwrap();
    let [mem_value] = f.node_outputs_exact::<1>(mem).unwrap();
    let _ret = f
        .graph_mut()
        .create_node(NodeKind::Return, &[entry_ctrl, mem_value], &[]);

    // A zombie Phi carrying a value_vn entry.
    let zombie_phi =
        f.graph_mut()
            .create_node(NodeKind::Phi, &[], &[ValueKind::Typed(ValueType::I64)]);
    let dead_vn = Vn {
        size: 8,
        addr_off: 0x88,
        addr_space: VnSpace::register(),
    };
    let zombie_phi_value = f.node_outputs(zombie_phi)[0];
    f.set_all_vns(vec![dead_vn]); // only a tracked vn can be tagged
    f.set_vn_for_value(zombie_phi_value, dead_vn);
    assert_eq!(
        f.get_vn_for_value(zombie_phi_value),
        Some(dead_vn),
        "tag must be set before compact"
    );

    // A zombie IntConst carrying a memory_offsets entry, keyed by its value.
    let zombie_stack =
        int_const_node(&mut f, (0xBEEF_u64) as u128, ValueType::I64);
    let zombie_value = f.node_outputs(zombie_stack).iter().copied().next().unwrap();
    f.side_tables_mut()
        .set_stack_slot(zombie_value, zombie_value, -8);
    assert_eq!(
        f.side_tables().memory_slot_resolved(zombie_value),
        Some((zombie_value, -8)),
        "offset must be set before compact"
    );

    let remap = f.compact().expect("compact must succeed");

    assert!(remap.node_old_to_new(zombie_phi).is_none());
    assert!(remap.node_old_to_new(zombie_stack).is_none());

    // Dropped ids can't be probed directly, so verify indirectly: no
    // surviving value carries the tag or the offset.
    let surviving_with_tag = f.graph().all_node_ids().into_iter().any(|n| {
        f.node_outputs(n)
            .first()
            .copied()
            .and_then(|v| f.get_vn_for_value(v))
            == Some(dead_vn)
    });
    assert!(
        !surviving_with_tag,
        "dead_vn value_vn tag must not survive compaction"
    );
    let surviving_with_offset = f.graph().all_node_ids().into_iter().any(|n| {
        f.node_outputs(n)
            .first()
            .copied()
            .and_then(|v| f.side_tables().memory_slot_resolved(v))
            .map(|(_, o)| o)
            == Some(-8)
    });
    assert!(
        !surviving_with_offset,
        "stack_offset -8 must not survive compaction on a surviving value"
    );
}

/// A surviving `arg_index_to_values` carrier value must be translated.
#[test]
fn compact_remaps_arg_index_to_values() {
    let mut f = test_function();
    let entry = f.entry();
    let mem = test_initial_memory(&f);
    // Created BEFORE the arg carrier so compaction reassigns the carrier's
    // NodeId.
    let _zombie = int_const_node(&mut f, (0xDEAD_u64) as u128, ValueType::I64);
    // A register-arg-style InitialVar kept live by Return.
    let arg_node = f.graph_mut().create_node(NodeKind::InitialVar(vnid(0)), &[], &[ValueKind::Typed(ValueType::I64)]);
    let [entry_ctrl] = f.node_outputs_exact::<1>(entry).unwrap();
    let [mem_value] = f.node_outputs_exact::<1>(mem).unwrap();
    let [arg_value] = f.node_outputs_exact::<1>(arg_node).unwrap();
    let _ret =
        f.graph_mut()
            .create_node(NodeKind::Return, &[entry_ctrl, mem_value, arg_value], &[]);
    f.side_tables_mut().register_arg_value(0, arg_value);

    let remap = f.compact().expect("compact must succeed");
    let new_arg_value = remap
        .output_old_to_new(arg_value)
        .expect("the live arg carrier value must survive compaction");

    assert_eq!(
        f.side_tables().arg_index_to_values(0),
        &[new_arg_value],
        "arg_index_to_values must carry the carrier's post-compaction value"
    );
    for &v in f.side_tables().arg_index_to_values(0) {
        let node = f.producer(v);
        assert!(
            f.graph().all_node_ids().into_iter().any(|n| n == node),
            "arg carrier producer {node:?} must be a live post-compaction node"
        );
    }
}

#[test]
fn compact_keeps_reachable_phi_tag_drops_unreachable() {
    let mut f = test_function();
    let entry = f.entry();
    let mem = test_initial_memory(&f);
    // Kept live by Return.
    let live_phi =
        f.graph_mut()
            .create_node(NodeKind::Phi, &[], &[ValueKind::Typed(ValueType::I64)]);
    let [entry_ctrl] = f.node_outputs_exact::<1>(entry).unwrap();
    let [mem_value] = f.node_outputs_exact::<1>(mem).unwrap();
    let [live_phi_value] = f.node_outputs_exact::<1>(live_phi).unwrap();
    let _ret = f.graph_mut().create_node(NodeKind::Return, &[entry_ctrl, mem_value, live_phi_value], &[]);

    // Wired to nothing reachable.
    let dead_phi =
        f.graph_mut()
            .create_node(NodeKind::Phi, &[], &[ValueKind::Typed(ValueType::I64)]);

    let live_vn = Vn {
        size: 8,
        addr_off: 0x10,
        addr_space: VnSpace::register(),
    };
    let dead_vn = Vn {
        size: 8,
        addr_off: 0x88,
        addr_space: VnSpace::register(),
    };
    let dead_phi_value = f.node_outputs(dead_phi)[0];
    f.set_all_vns(vec![live_vn, dead_vn]); // only tracked vns can be tagged
    f.set_vn_for_value(live_phi_value, live_vn);
    f.set_vn_for_value(dead_phi_value, dead_vn);

    let remap = f.compact().expect("compact must succeed");
    let new_live_phi = remap
        .node_old_to_new(live_phi)
        .expect("reachable phi must survive compaction");
    let new_live_phi_value = remap
        .output_old_to_new(live_phi_value)
        .expect("reachable phi value must survive compaction");

    assert_eq!(
        f.get_vn_for_value(new_live_phi_value),
        Some(live_vn),
        "reachable phi's tag must survive compaction"
    );
    let _ = new_live_phi;
    assert!(
        remap.node_old_to_new(dead_phi).is_none(),
        "unreachable phi must be dropped"
    );
    assert!(
        !f.graph().all_node_ids().into_iter().any(|n| f
            .node_outputs(n)
            .first()
            .copied()
            .and_then(|v| f.get_vn_for_value(v))
            == Some(dead_vn)),
        "dead phi tag must not survive compaction"
    );
}

#[test]
fn compact_drops_pruned_arg_value_keeps_surviving() {
    let mut f = test_function();
    let entry = f.entry();
    let mem = test_initial_memory(&f);
    let live_carrier = f.graph_mut().create_node(NodeKind::InitialVar(vnid(0)), &[], &[ValueKind::Typed(ValueType::I64)]);
    let [entry_ctrl] = f.node_outputs_exact::<1>(entry).unwrap();
    let [mem_value] = f.node_outputs_exact::<1>(mem).unwrap();
    let [live_value] = f.node_outputs_exact::<1>(live_carrier).unwrap();
    let _ret =
        f.graph_mut()
            .create_node(NodeKind::Return, &[entry_ctrl, mem_value, live_value], &[]);

    // An unreachable carrier on a different arg index.
    let dead_carrier = f.graph_mut().create_node(NodeKind::InitialVar(vnid(1)), &[], &[ValueKind::Typed(ValueType::I64)]);
    let [dead_value] = f.node_outputs_exact::<1>(dead_carrier).unwrap();

    f.side_tables_mut().register_arg_value(0, live_value);
    f.side_tables_mut().register_arg_value(1, dead_value);

    f.compact().expect("compact must succeed");

    // arg 1's only value was pruned, so the index goes entirely.
    assert!(
        f.side_tables().arg_index_to_values(1).is_empty(),
        "pruned arg value must be dropped"
    );
    // arg 0 survives, so producer recovers the live carrier.
    let surviving = f.side_tables().arg_index_to_values(0);
    assert_eq!(surviving.len(), 1);
    let node = f.producer(surviving[0]);
    assert!(matches!(f.node_kind(node), NodeKind::InitialVar(_)));
}

#[test]
fn clobber_output_value_maps_to_vn_via_value_vn() {
    let mut f = test_function();
    // Outputs are [Control, Memory, clobber].
    let call = f.graph_mut().create_node(NodeKind::Call { cc: None }, &[], &[
            ValueKind::Control,
            ValueKind::Memory,
            ValueKind::Typed(ValueType::I64),
        ]);
    let clobber_value = f.node_outputs(call)[2];
    let vn = Vn {
        size: 8,
        addr_off: 0x40,
        addr_space: VnSpace::register(),
    };
    f.set_all_vns(vec![vn]); // only a tracked vn can be tagged
    assert_eq!(f.get_vn_for_value(clobber_value), None);
    f.set_vn_for_value(clobber_value, vn);
    assert_eq!(f.get_vn_for_value(clobber_value), Some(vn));
    // Control / Memory outputs carry no clobber tag.
    assert_eq!(f.get_vn_for_value(f.node_outputs(call)[0]), None);
    assert_eq!(f.get_vn_for_value(f.node_outputs(call)[1]), None);
}

/// Compact must keep a `Call`'s override convention and remap the
/// per-output clobber `value_vn` (ValueId-keyed).
#[test]
fn compact_remaps_call_cc_and_clobber_value_vn() {
    let mut cc = BuiltCallingConvention::trivial();
    cc.stack_args = Some(StackArgs { base_offset: 8, increment: 8 });

    let mut f = test_function();
    let entry = f.entry();
    let mem = test_initial_memory(&f);
    // Created before the Call so compaction reassigns ids.
    let _zombie = int_const_node(&mut f, (0xDEAD_u64) as u128, ValueType::I64);
    let [entry_ctrl] = f.node_outputs_exact::<1>(entry).unwrap();
    let [mem_value] = f.node_outputs_exact::<1>(mem).unwrap();
    let target = int_const_node(&mut f, 0x1000_u128, ValueType::I64);
    let [target_value] = f.node_outputs_exact::<1>(target).unwrap();
    // One clobber output; kept live by the Return consuming its ctrl/mem.
    let call = f.graph_mut().create_node(NodeKind::Call { cc: None }, &[entry_ctrl, mem_value, target_value], &[
            ValueKind::Control,
            ValueKind::Memory,
            ValueKind::Typed(ValueType::I64),
        ]);
    let [call_ctrl, call_mem, clob] = f.node_outputs_exact::<3>(call).unwrap();
    let clob_vn = Vn {
        size: 8,
        addr_off: 0x40,
        addr_space: VnSpace::register(),
    };
    f.set_all_vns(vec![clob_vn]); // only a tracked vn can be tagged
    f.set_vn_for_value(clob, clob_vn);
    f.set_call_cc(call, cc.duplicate());
    let _ret = f
        .graph_mut()
        .create_node(NodeKind::Return, &[call_ctrl, call_mem], &[]);

    // The override differs from the trivial default, so get_cc returns it.
    assert!(!f.get_cc(call).same(f.default_cc()));
    assert_eq!(f.get_cc(call).stack_args, cc.stack_args,);
    assert_eq!(f.get_vn_for_value(clob), Some(clob_vn));

    let remap = f.compact().expect("compact must succeed");
    let new_call = remap
        .node_old_to_new(call)
        .expect("live Call must survive compaction");
    let new_clob = remap
        .output_old_to_new(clob)
        .expect("live clobber output value must survive compaction");

    assert!(!f.get_cc(new_call).same(f.default_cc()));
    assert_eq!(f.get_cc(new_call).stack_args, cc.stack_args,);
    assert_eq!(f.get_vn_for_value(new_clob), Some(clob_vn));
}
