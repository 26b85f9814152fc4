//! Side tables and memory partitions on their own.

use strider_ir::function::side_tables::{MemDecomp, SideTables};
use strider_ir::mem_partition::{AliasClass, PartitionTable};
use strider_ir::node::{InitialVnId, NodeId, ValueId};

/// Class and resolved slot come out of one lookup and must agree in every
/// state.
#[test]
fn memory_decomp_returns_class_and_slot_together() {
    let mut st = SideTables::new();
    let base = ValueId(0);
    let stack = ValueId(1);
    let heap = ValueId(2);
    let not_mem = ValueId(3);
    let cold = ValueId(4);

    st.set_stack_slot(stack, base, -8);
    st.set_heap_slot(heap, base, 16);
    st.set_not_memory(not_mem);

    assert!(
        matches!(st.memory_decomp(stack), (MemDecomp::Stack(_), Some((b, -8))) if b == base)
    );
    assert!(matches!(st.memory_decomp(heap), (MemDecomp::Heap(_), Some((b, 16))) if b == base));
    assert_eq!(st.memory_decomp(not_mem), (MemDecomp::NotMemory, None));
    assert_eq!(st.memory_decomp(cold), (MemDecomp::Unknown, None));

    for v in [stack, heap, not_mem, cold] {
        let (class, slot) = st.memory_decomp(v);
        assert_eq!(class, st.memory_class(v));
        assert_eq!(slot, st.memory_slot_resolved(v));
    }
}

/// Wholesale replacement; the deny pins the writer to a `&mut` borrow.
#[test]
fn noalias_allocators_replace_through_mut() {
    let mut st = SideTables::new();
    assert!(!st.is_noalias_allocator(0x1000));
    st.set_noalias_allocators(vec![0x1000, 0x2000]);
    assert!(st.is_noalias_allocator(0x1000));
    assert!(st.is_noalias_allocator(0x2000));
    st.set_noalias_allocators(vec![0x2000]);
    assert!(!st.is_noalias_allocator(0x1000), "wholesale replacement");
    assert!(st.is_noalias_allocator(0x2000));
}

#[test]
fn frame_escape_round_trips_and_clears() {
    let mut st = SideTables::new();
    assert_eq!(st.frame_escape(), None, "cold: not yet computed");
    st.set_frame_escape(true);
    assert_eq!(st.frame_escape(), Some(true));
    st.set_frame_escape(false);
    assert_eq!(st.frame_escape(), Some(false), "overwrites a prior verdict");
    st.clear_frame_escape();
    assert_eq!(st.frame_escape(), None, "clear invalidates the memo");
}

// The union is order-independent, deduplicating and never dropping an entry.
#[test]
fn extend_asm_fingerprint_unions_deduped() {
    let mut st = SideTables::new();
    let n = NodeId(3);

    // Seed from empty; contributors may arrive unsorted.
    st.extend_asm_fingerprint(n, &[40, 10, 30, 20, 50]);
    assert_eq!(
        st.asm_fingerprint(n),
        &[10, 20, 30, 40, 50][..]
    );

    // Merge into a non-empty fp: unsorted, one duplicate (20), rest new.
    st.extend_asm_fingerprint(n, &[35, 20, 5, 45]);
    assert_eq!(
        st.asm_fingerprint(n),
        &[5, 10, 20, 30, 35, 40, 45, 50][..]
    );

    // Idempotent: merging a subset changes nothing.
    st.extend_asm_fingerprint(n, &[10, 50]);
    assert_eq!(
        st.asm_fingerprint(n),
        &[5, 10, 20, 30, 35, 40, 45, 50][..]
    );

    // Empty contributors is a no-op.
    st.extend_asm_fingerprint(n, &[]);
    assert_eq!(
        st.asm_fingerprint(n),
        &[5, 10, 20, 30, 35, 40, 45, 50][..]
    );
}

#[test]
fn partition_table_assigns_distinct_ids() {
    let mut t = PartitionTable::new();
    let p1 = t.create(AliasClass::Stack);
    let p2 = t.create(AliasClass::Heap);
    assert_ne!(p1, p2);
}

#[test]
fn partition_table_lookups_round_trip() {
    let mut t = PartitionTable::new();
    let p_rom = t.create(AliasClass::Rom);
    let p_stack = t.create(AliasClass::Stack);
    assert_eq!(t.info(p_rom).alias_class, AliasClass::Rom);
    assert!(t.info(p_rom).read_only); // Rom is read-only
    assert_eq!(t.info(p_stack).alias_class, AliasClass::Stack);
    assert!(!t.info(p_stack).read_only); // Stack is RW
}

#[test]
fn carriers_come_by_argument_integers_first() {
    let mut st = SideTables::new();
    st.register_float_arg_value(0, ValueId(9));
    st.register_arg_value(2, ValueId(5));
    st.register_arg_value(0, ValueId(7));
    st.register_arg_value(2, ValueId(3));
    st.register_float_arg_value(1, ValueId(7));
    assert_eq!(
        st.arg_carrier_values(),
        vec![ValueId(7), ValueId(5), ValueId(3), ValueId(9), ValueId(7)]
    );
}

#[test]
fn varnodes_of_values_come_in_id_order_once() {
    let mut st = SideTables::new();
    st.set_value_vn(ValueId(4), InitialVnId(1));
    st.set_value_vn(ValueId(1), InitialVnId(0));
    st.set_value_vn(ValueId(4), InitialVnId(2));
    assert_eq!(
        st.value_vn_entries(),
        vec![(ValueId(1), InitialVnId(0)), (ValueId(4), InitialVnId(2))]
    );
}
