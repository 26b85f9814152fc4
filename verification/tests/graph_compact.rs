//! Compaction of a graph.

use strider_ir::graph::Graph;
use strider_ir::node::{ConstId, NodeId, NodeKind, UseId, ValueKind, ValueType};

fn cid(n: u64) -> ConstId {
    ConstId(n as u32)
}

/// Builds a minimal graph: `Entry → Return(value, mem)` where
/// `value` is the IntConst returned by `value_kind` and `mem` is
/// `InitialMemory`.  Returns `(entry, value_node, return_node, mem_node)`.
/// Useful for tests that need a small reachable set anchored by Entry
/// plus a known value-producing node in that set.
fn build_anchor(graph: &mut Graph, value: u64) -> (NodeId, NodeId, NodeId, NodeId) {
    let entry = graph.create_node(NodeKind::Entry, &[], &[ValueKind::Control]);
    let mem = graph.create_node(NodeKind::InitialMemory, &[], &[ValueKind::Memory]);
    let const_node = graph.create_node(NodeKind::IntConst(cid(value)), &[], &[ValueKind::Typed(ValueType::I64)]);
    let [entry_ctrl] = graph.node_outputs_exact::<1>(entry).unwrap();
    let [mem_out] = graph.node_outputs_exact::<1>(mem).unwrap();
    let [const_out] = graph.node_outputs_exact::<1>(const_node).unwrap();
    let ret_node = graph.create_node(NodeKind::Return, &[entry_ctrl, mem_out, const_out], &[]);
    (entry, const_node, ret_node, mem)
}

/// The `NodeIdRemap` accessors return `None` for old ids whose
/// source node was unreachable and therefore dropped during
/// compaction.  Surviving ids return `Some(new_id)`.  Verifies the
/// translation table is sparse and faithful at the boundary.
#[test]
fn node_id_remap_returns_none_for_dropped() {
    let mut graph = Graph::new();
    let (entry, const_node, ret_node, _mem_node) = build_anchor(&mut graph, 1);
    let [const_old_out] = graph.node_outputs_exact::<1>(const_node).unwrap();
    let ret_old_input_slots: Vec<UseId> = (0..graph.node_inputs(ret_node).len())
        .map(|i| graph.node_input_id_at(ret_node, i).unwrap())
        .collect();

    // Zombie with its own output id and (no) input ids.
    let zombie = graph.create_node(NodeKind::IntConst(cid(0xC0FFEE)), &[], &[ValueKind::Typed(ValueType::I64)]);
    let [zombie_out] = graph.node_outputs_exact::<1>(zombie).unwrap();

    let remap = graph.retain_reachable(entry);

    // Surviving ids resolve to Some(_).
    assert!(remap.node_old_to_new(entry).is_some());
    assert!(remap.node_old_to_new(const_node).is_some());
    assert!(remap.node_old_to_new(ret_node).is_some());
    assert!(remap.output_old_to_new(const_old_out).is_some());
    for &input_id in &ret_old_input_slots {
        assert!(
            remap.input_old_to_new(input_id).is_some(),
            "reachable Return input {input_id:?} should remap to Some(_)",
        );
    }

    // Dropped ids resolve to None.
    assert!(remap.node_old_to_new(zombie).is_none());
    assert!(remap.output_old_to_new(zombie_out).is_none());
}

/// Calling `retain_reachable` a second time on an already-compacted
/// graph leaves node count unchanged and produces a remap whose
/// every entry is `Some(_)` (no further drops possible).
#[test]
fn retain_reachable_is_idempotent() {
    let mut graph = Graph::new();
    let (entry, _const_node, _ret_node, _mem_node) = build_anchor(&mut graph, 0x42);
    let _zombie = graph.create_node(NodeKind::IntConst(cid(0xDEAD)), &[], &[ValueKind::Typed(ValueType::I64)]);

    let _ = graph.retain_reachable(entry);
    let post_first_count = graph.all_node_ids().into_iter().count();
    // retain_reachable invalidates pre-call ids; re-derive the entry
    // from the unique NodeKind::Entry in the surviving arena.
    let new_entry = graph
        .all_node_ids().into_iter()
        .find(|&id| matches!(graph.node_kind(id), NodeKind::Entry))
        .unwrap();

    let remap2 = graph.retain_reachable(new_entry);
    let post_second_count = graph.all_node_ids().into_iter().count();
    assert_eq!(
        post_first_count, post_second_count,
        "second retain_reachable must not drop further nodes",
    );
    // Every pre-second id remaps to Some(_).
    for old_id in graph.all_node_ids().into_iter().collect::<Vec<_>>() {
        assert!(
            remap2.node_old_to_new(old_id).is_some(),
            "second retain_reachable dropped already-compact id {old_id:?}",
        );
    }
}

/// After `retain_reachable` compacts the graph, the dedup cache
/// must have been rebuilt: creating a cacheable node with
/// identical `(kind, inputs, output_kinds)` after the compaction
/// must still alias to a single survivor.  A regression that left
/// the cache stale (or skipped the rebuild step) would yield two
/// distinct `NodeId`s for the same logical value — silent graph
/// blowup.
#[test]
fn retain_reachable_rebuilds_dedup_cache() {
    let mut graph = Graph::new();
    let entry = graph.create_node(NodeKind::Entry, &[], &[ValueKind::Control]);
    let _remap = graph.retain_reachable(entry);

    // After compaction, creating a cacheable node with identical
    // (kind, inputs, output_kinds) must dedup.
    let one_a = graph.create_node(NodeKind::IntConst(cid(7)), &[], &[ValueKind::Typed(ValueType::I64)]);
    let one_b = graph.create_node(NodeKind::IntConst(cid(7)), &[], &[ValueKind::Typed(ValueType::I64)]);
    assert_eq!(one_a, one_b, "dedup cache must be rebuilt by retain_reachable");
}

/// A graph with no side-table entries must compact cleanly — no panic.
#[test]
fn empty_side_table_compacts_cleanly() {
    let mut graph = Graph::new();
    let entry = graph.create_node(NodeKind::Entry, &[], &[ValueKind::Control]);
    let mem = graph.create_node(NodeKind::InitialMemory, &[], &[ValueKind::Memory]);
    let [entry_ctrl] = graph.node_outputs_exact::<1>(entry).unwrap();
    let [mem_out] = graph.node_outputs_exact::<1>(mem).unwrap();
    let _ret = graph.create_node(NodeKind::Return, &[entry_ctrl, mem_out], &[]);

    let remap = graph.retain_reachable(entry);

    assert!(remap.node_old_to_new(entry).is_some());
    assert!(remap.node_old_to_new(mem).is_some());
}
