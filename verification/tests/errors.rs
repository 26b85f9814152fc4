//! Every error with an input that gives it, and the errors in words.

use strider_ir::error::IrError;
use strider_ir::function::func::Function;
use strider_ir::graph::Graph;
use strider_ir::node::{ConstId, IntBinaryOp, NodeId, NodeKind, ValueKind, ValueType};
use strider_ir::target::{BuiltCallingConvention, Endianness};

const I64: ValueKind = ValueKind::Typed(ValueType::I64);

fn with_sum() -> (Graph, NodeId) {
    let mut g = Graph::new();
    let c = g.create_node(NodeKind::IntConst(ConstId(0)), &[], &[I64]);
    let x = g.node_outputs(c)[0];
    let sum = g.create_node(NodeKind::IntBinaryOp(IntBinaryOp::Add), &[x, x], &[I64]);
    (g, sum)
}

#[test]
fn shared_nodes_keep_their_inputs() {
    let (mut g, sum) = with_sum();
    let x = g.node_inputs(sum).iter()[0];
    let added = g.add_node_input(sum, x).unwrap_err();
    assert_eq!(added, IrError::AddToCacheable { node: sum });
    assert_eq!(
        added.message(),
        "attempted to add input to cacheable node NodeId(1)"
    );
    let removed = g.remove_node_input(sum, 0).unwrap_err();
    assert_eq!(removed, IrError::RemoveFromCacheable { node: sum });
    assert_eq!(
        removed.message(),
        "attempted to remove input from cacheable node NodeId(1)"
    );
    assert_eq!(g.node_inputs(sum).iter(), vec![x, x]);
}

#[test]
fn positions_past_the_inputs_are_refused() {
    let (mut g, sum) = with_sum();
    let error = g.node_input_id_at(sum, 2).unwrap_err();
    assert_eq!(error, IrError::InputOutOfBounds { node: sum, index: 2, len: 2 });
    assert_eq!(
        error.message(),
        "input index 2 out of bounds for node NodeId(1) (len=2)"
    );
    let region = g.create_node(NodeKind::Region, &[], &[ValueKind::Control]);
    assert_eq!(
        g.remove_node_input(region, 0),
        Err(IrError::InputOutOfBounds { node: region, index: 0, len: 0 })
    );
}

#[test]
fn counts_must_be_exact() {
    let (g, sum) = with_sum();
    let inputs = g.node_inputs_exact::<3>(sum).unwrap_err();
    assert_eq!(inputs, IrError::InputCount { node: sum, expected: 3, actual: 2 });
    assert_eq!(
        inputs.message(),
        "node NodeId(1) does not have exactly 3 inputs (has 2)"
    );
    let outputs = g.node_outputs_exact::<2>(sum).unwrap_err();
    assert_eq!(outputs, IrError::OutputCount { node: sum, expected: 2, actual: 1 });
    assert_eq!(
        outputs.message(),
        "node NodeId(1) does not have exactly 2 outputs (has 1)"
    );
}

#[test]
fn the_memory_output_must_be_unique() {
    let (mut g, sum) = with_sum();
    let none = g.memory_output_of(sum).unwrap_err();
    assert_eq!(none, IrError::NoMemoryOutput { node: sum });
    assert_eq!(none.message(), "node NodeId(1) has no Memory output");
    let two = g.create_node(
        NodeKind::Call { cc: None },
        &[],
        &[ValueKind::Memory, ValueKind::Memory],
    );
    let several = g.memory_output_of(two).unwrap_err();
    assert_eq!(several, IrError::SeveralMemoryOutputs { node: two });
    assert_eq!(
        several.message(),
        "node NodeId(2) has more than one Memory output"
    );
    let one = g.create_node(NodeKind::InitialMemory, &[], &[ValueKind::Memory]);
    assert_eq!(g.memory_output_of(one), Ok(g.node_outputs(one)[0]));
}

#[test]
fn a_cursor_past_the_end_replaces_nothing() {
    let (mut g, sum) = with_sum();
    let value = g.node_outputs(sum)[0];
    let mut cursor = g.value_use_cursor(value);
    assert_eq!(cursor.current(), None);
    let error = cursor.replace_current_with(value).unwrap_err();
    assert_eq!(error, IrError::NullCursor);
    assert_eq!(error.message(), "attempted to replace a null cursor use");
}

#[test]
fn integer_constants_have_integer_types() {
    let mut f = Function::new(
        BuiltCallingConvention::trivial(),
        Endianness::Big,
        Vec::new(),
    );
    let error = f.build_int_const(1, ValueType::F64).unwrap_err();
    assert_eq!(error, IrError::NotAnInteger);
    assert_eq!(
        error.message(),
        "the type of an integer constant is not an integer type"
    );
    let value = f.build_int_const(0x1FF, ValueType::I8).unwrap();
    assert_eq!(f.int_const_u128(value), Some(0xFF));
    assert_eq!(f.endianness(), Endianness::Big);
}

#[test]
fn a_missing_entry_in_words() {
    let error = IrError::EntryMissing { node: NodeId(12) };
    assert_eq!(
        error.message(),
        "Function::compact: entry NodeId(12) missing from remap (invariant violation)"
    );
}
