//! Drawings of a graph for analysis work.

use strider_ir::dot::args::build_arg_reverse_map;
use strider_ir::dot::emitter::{DotEmitter, DotStyle};
use strider_ir::dot::graph_dot::GraphDotDumper;
use strider_ir::dot::label::{pretty_label, Dialect};
use strider_ir::dot::naming::{FloatText, Naming};
use strider_ir::function::func::Function;
use strider_ir::mem_partition::AliasClass;
use strider_ir::node::{InitialVnId, NodeId, NodeKind, ValueKind, ValueType};
use strider_ir::target::{BuiltCallingConvention, Endianness, VnSpace};

/// A function with its entry and the initial memory.
fn test_function() -> Function {
    let mut f = Function::new(
        BuiltCallingConvention::trivial(),
        Endianness::Little,
        Vec::new(),
    );
    f.graph_mut()
        .create_node(NodeKind::InitialMemory, &[], &[ValueKind::Memory]);
    f
}

/// Interns `v` (masked to `ty`), then builds the `IntConst` node.
fn int_const_node(f: &mut Function, v: u128, ty: ValueType) -> NodeId {
    let id = f.intern_int_const(v, ty);
    f.graph_mut()
        .create_node(NodeKind::IntConst(id), &[], &[ValueKind::Typed(ty)])
}

/// A target without named registers.
fn probe_naming() -> Naming {
    Naming {
        default_code_space: VnSpace::ram(),
        registers: Vec::new(),
        floats: Vec::new(),
    }
}

fn dumper_of<'a>(function: &'a Function, entry: NodeId, naming: &'a Naming) -> GraphDotDumper<'a> {
    GraphDotDumper {
        entry,
        function,
        naming,
        call_clobbered: &[],
        ret_val_regs: &[],
        node_filter: None,
        node_to_arg_indices: build_arg_reverse_map(function),
    }
}

/// Renders every node reachable from `entry` and returns the DOT string.
fn render(function: &Function, entry: NodeId) -> String {
    let naming = probe_naming();
    dumper_of(function, entry, &naming).as_dot(DotStyle::empty())
}

fn count_lines<'a>(s: &'a str, pred: impl Fn(&'a str) -> bool) -> usize {
    s.lines().filter(|l| pred(l)).count()
}

/// Returns all DOT node-declaration lines (contain `[label=` but not `->`)
fn node_decls(dot: &str) -> Vec<&str> {
    dot.lines()
        .filter(|l| l.contains("[label=") && !l.contains("->"))
        .collect()
}

/// Returns all DOT edge lines (contain `->`)
fn edge_lines(dot: &str) -> Vec<&str> {
    dot.lines().filter(|l| l.contains("->")).collect()
}

// ── determinism ───────────────────────────────────────────────────────────

/// Rendering the same graph twice must produce identical DOT output.
#[test]
fn tests_dot_output_is_deterministic() {
    let mut f = test_function();
    let entry = f.graph_mut().create_node(NodeKind::Entry, &[], &[ValueKind::Control]);
    f.set_entry(entry);
    let [ctrl] = f.node_outputs_exact::<1>(entry).unwrap();

    let cs = f.graph_mut().create_node(NodeKind::Region, &[ctrl], &[ValueKind::Control, ValueKind::PhiToken]);
    let [cs_ctrl, _] = f.node_outputs_exact::<2>(cs).unwrap();
    f.graph_mut().create_node(NodeKind::Return, &[cs_ctrl], &[]);

    let first = render(&f, entry);
    let second = render(&f, entry);
    assert_eq!(
        first, second,
        "same graph must render identically on two calls"
    );
}

/// A graph with a diamond (If → two branches → merge) must render
/// deterministically regardless of walk order.
#[test]
fn tests_dot_output_diamond_is_deterministic() {
    let mut f = test_function();

    let entry = f.graph_mut().create_node(NodeKind::Entry, &[], &[ValueKind::Control]);
    f.set_entry(entry);
    let [entry_ctrl] = f.node_outputs_exact::<1>(entry).unwrap();
    let cond = int_const_node(&mut f, 0, ValueType::I1);
    let [cond_out] = f.node_outputs_exact::<1>(cond).unwrap();
    let if_node = f.graph_mut().create_node(NodeKind::If, &[entry_ctrl, cond_out], &[ValueKind::Control, ValueKind::Control]);
    let [true_ctrl, false_ctrl] = f.node_outputs_exact::<2>(if_node).unwrap();

    f.graph_mut().create_node(NodeKind::Return, &[true_ctrl], &[]);
    f.graph_mut().create_node(NodeKind::Return, &[false_ctrl], &[]);

    let first = render(&f, entry);
    let second = render(&f, entry);
    assert_eq!(first, second);
}

// ── structural correctness ────────────────────────────────────────────────

/// The DOT output must begin with `digraph` and end with `}`.
#[test]
fn tests_dot_output_has_digraph_wrapper() {
    let mut f = test_function();
    let entry = f.graph_mut().create_node(NodeKind::Entry, &[], &[ValueKind::Control]);
    f.set_entry(entry);
    let dot = render(&f, entry);
    assert!(
        dot.trim_start().starts_with("digraph"),
        "must start with 'digraph':\n{dot}"
    );
    assert!(dot.trim_end().ends_with('}'), "must end with '}}':\n{dot}");
}

/// Every declared node id referenced on an edge must also appear as a node
/// declaration (no edge references an id that was never declared).
#[test]
fn tests_all_edge_endpoints_are_declared() {
    let mut f = test_function();
    let entry = f.graph_mut().create_node(NodeKind::Entry, &[], &[ValueKind::Control]);
    f.set_entry(entry);
    let [ctrl] = f.node_outputs_exact::<1>(entry).unwrap();
    let cond = int_const_node(&mut f, 1, ValueType::I1);
    let [cond_out] = f.node_outputs_exact::<1>(cond).unwrap();
    let if_node = f.graph_mut().create_node(NodeKind::If, &[ctrl, cond_out], &[ValueKind::Control, ValueKind::Control]);
    let [tc, fc] = f.node_outputs_exact::<2>(if_node).unwrap();
    f.graph_mut().create_node(NodeKind::Return, &[tc], &[]);
    f.graph_mut().create_node(NodeKind::Return, &[fc], &[]);

    let dot = render(&f, entry);

    // Collect every declared dot node id (the part before the first space on
    // a `"id" [label=…]` line).
    let declared: std::collections::HashSet<&str> = dot
        .lines()
        .filter(|l| l.contains("[label=") && !l.contains("->"))
        .filter_map(|l| l.trim().split('"').nth(1))
        .collect();

    // For every edge `"a" -> "b"` check both endpoints are declared.
    for line in dot.lines().filter(|l| l.contains("->")) {
        let parts: Vec<&str> = line.trim().split("->").collect();
        if parts.len() < 2 {
            continue;
        }
        let src = parts[0].trim().trim_matches('"');
        // rhs may have attributes after the id like `"b" [color=…]`
        let dst = parts[1].trim().split('"').nth(1).unwrap_or("").trim();
        assert!(
            declared.contains(src),
            "edge source '{src}' has no node declaration:\n{dot}"
        );
        assert!(
            declared.contains(dst),
            "edge destination '{dst}' has no node declaration:\n{dot}"
        );
    }
}

/// A linear chain (Entry → Region → Return) must produce exactly
/// those three node declarations and two edges.
#[test]
fn tests_linear_chain_node_and_edge_count() {
    let mut f = test_function();
    let entry = f.graph_mut().create_node(NodeKind::Entry, &[], &[ValueKind::Control]);
    f.set_entry(entry);
    let [ctrl] = f.node_outputs_exact::<1>(entry).unwrap();
    let cs = f.graph_mut().create_node(NodeKind::Region, &[ctrl], &[ValueKind::Control, ValueKind::PhiToken]);
    let [cs_ctrl, _] = f.node_outputs_exact::<2>(cs).unwrap();
    f.graph_mut().create_node(NodeKind::Return, &[cs_ctrl], &[]);

    let dot = render(&f, entry);
    assert_eq!(
        node_decls(&dot).len(),
        3,
        "exactly 3 node declarations:\n{dot}"
    );
    assert_eq!(edge_lines(&dot).len(), 2, "exactly 2 edges:\n{dot}");
}

/// An `If` node must produce exactly two virtual-node declarations
/// ("if.true" and "if.false") and exactly two edges from the `If` diamond.
#[test]
fn tests_if_node_produces_exactly_two_branch_virtual_nodes() {
    let mut f = test_function();
    let entry = f.graph_mut().create_node(NodeKind::Entry, &[], &[ValueKind::Control]);
    f.set_entry(entry);
    let [ctrl] = f.node_outputs_exact::<1>(entry).unwrap();
    let cond = int_const_node(&mut f, 1, ValueType::I1);
    let [cond_out] = f.node_outputs_exact::<1>(cond).unwrap();
    let if_node = f.graph_mut().create_node(NodeKind::If, &[ctrl, cond_out], &[ValueKind::Control, ValueKind::Control]);
    let [tc, fc] = f.node_outputs_exact::<2>(if_node).unwrap();
    f.graph_mut().create_node(NodeKind::Return, &[tc], &[]);
    f.graph_mut().create_node(NodeKind::Return, &[fc], &[]);

    let dot = render(&f, entry);

    let if_true_count = count_lines(&dot, |l| l.contains("if.true") && l.contains("[label="));
    let if_false_count = count_lines(&dot, |l| l.contains("if.false") && l.contains("[label="));
    assert_eq!(if_true_count, 1, "exactly one if.true declaration:\n{dot}");
    assert_eq!(
        if_false_count, 1,
        "exactly one if.false declaration:\n{dot}"
    );
}

// ── label content ─────────────────────────────────────────────────────────

/// `MemPhi` nodes must render with the label "φ Mem".
#[test]
fn tests_mem_phi_label_is_phi_mem() {
    let mut f = test_function();
    let entry = f.graph_mut().create_node(NodeKind::Entry, &[], &[ValueKind::Control]);
    f.set_entry(entry);
    let mem_phi = f.graph_mut().create_node(NodeKind::MemPhi, &[], &[ValueKind::Memory]);
    // mem_phi is only reachable as a data input of Return (graph walk follows inputs)
    let [mp_out] = f.node_outputs_exact::<1>(mem_phi).unwrap();
    let [entry_ctrl] = f.node_outputs_exact::<1>(entry).unwrap();
    f.graph_mut().create_node(NodeKind::Return, &[entry_ctrl, mp_out], &[]);

    let dot = render(&f, entry);
    assert!(
        dot.contains("φ Mem"),
        "MemPhi label must be 'φ Mem':\n{dot}"
    );
    assert!(
        !dot.contains("MemPhi"),
        "the 'MemPhi' label must not appear:\n{dot}"
    );
}

/// `IntConst` nodes must include their hex value and type in the label.
#[test]
fn tests_int_const_label_contains_value_and_type() {
    let mut f = test_function();
    let entry = f.graph_mut().create_node(NodeKind::Entry, &[], &[ValueKind::Control]);
    f.set_entry(entry);
    let c = int_const_node(&mut f, 0xdeadbeef, ValueType::I32);
    let [c_out] = f.node_outputs_exact::<1>(c).unwrap();
    let [entry_ctrl] = f.node_outputs_exact::<1>(entry).unwrap();
    f.graph_mut().create_node(NodeKind::Return, &[entry_ctrl, c_out], &[]);

    let dot = render(&f, entry);
    assert!(
        dot.contains("0xdeadbeef"),
        "hex value must be in label:\n{dot}"
    );
    assert!(dot.contains("u32"), "type must be in label:\n{dot}");
}

// ── if virtual-node ordering ───────── ───────────────────────────────────

/// Verify that "if.true"/"if.false" virtual nodes are correctly wired even
/// when a branch successor (CS_true / CS_false) is rendered *before* the
/// `If` node itself.
#[test]
fn tests_if_virtual_nodes_connected_when_consumer_rendered_before_if() {
    let mut f = test_function();
    let entry = f.graph_mut().create_node(NodeKind::Entry, &[], &[ValueKind::Control]);
    f.set_entry(entry);
    let [entry_ctrl] = f.node_outputs_exact::<1>(entry).unwrap();
    let cond_node = int_const_node(&mut f, 1, ValueType::I1);
    let [cond] = f.node_outputs_exact::<1>(cond_node).unwrap();
    let if_node = f.graph_mut().create_node(NodeKind::If, &[entry_ctrl, cond], &[ValueKind::Control, ValueKind::Control]);
    let [true_ctrl, false_ctrl] = f.node_outputs_exact::<2>(if_node).unwrap();

    let cs_true = f.graph_mut().create_node(NodeKind::Region, &[], &[ValueKind::Control, ValueKind::PhiToken]);
    f.graph_mut().add_node_input(cs_true, true_ctrl).unwrap();
    let [cs_true_ctrl, _] = f.node_outputs_exact::<2>(cs_true).unwrap();

    let cs_false = f.graph_mut().create_node(NodeKind::Region, &[], &[ValueKind::Control, ValueKind::PhiToken]);
    f.graph_mut().add_node_input(cs_false, false_ctrl).unwrap();
    let [cs_false_ctrl, _] = f.node_outputs_exact::<2>(cs_false).unwrap();

    f.graph_mut().create_node(NodeKind::Return, &[cs_true_ctrl], &[]);
    f.graph_mut().create_node(NodeKind::Return, &[cs_false_ctrl], &[]);

    let naming = probe_naming();
    let dumper = dumper_of(&f, entry, &naming);

    let style = DotStyle::empty();
    let mut emitter = DotEmitter::new("test", &style);
    let mut state = dumper.create_initial_state();

    // Render cs_true *before* if_node.
    dumper
        .dump_as_dot(cs_true, &mut emitter, &mut state);
    dumper
        .dump_as_dot(if_node, &mut emitter, &mut state);

    let dot = emitter.finish();

    let if_true_id = dot
        .lines()
        .find_map(|line| {
            if line.contains("if.true") && line.contains("[label=") {
                line.trim().split('"').nth(1).map(str::to_owned)
            } else {
                None
            }
        })
        .expect("if.true node must be declared in the DOT output");

    let q = format!("\"{}\"", if_true_id);
    let edges_into = edge_lines(&dot)
        .into_iter()
        .filter(|l| l.split("->").nth(1).is_some_and(|rhs| rhs.contains(&q)))
        .count();
    let edges_from = edge_lines(&dot)
        .into_iter()
        .filter(|l| l.split("->").next().is_some_and(|lhs| lhs.contains(&q)))
        .count();

    assert!(
        edges_into >= 1,
        "if.true must have ≥1 incoming edge:\n{dot}"
    );
    assert!(
        edges_from >= 1,
        "if.true must have ≥1 outgoing edge:\n{dot}"
    );
}

/// CastToInt accepts `AnyValue` per its signature; the rendered label must
/// reflect the actual input type, not a hard-coded "from bool".
#[test]
fn cast_to_int_label_reflects_actual_input_type() {
    let mut f = test_function();
    let entry = f.graph_mut().create_node(NodeKind::Entry, &[], &[ValueKind::Control]);
    f.set_entry(entry);
    let init_mem = f.graph_mut().create_node(NodeKind::InitialMemory, &[], &[ValueKind::Memory]);
    let entry_ctrl = f.node_outputs(entry).iter().copied().next().unwrap();
    let mem = f.node_outputs(init_mem).iter().copied().next().unwrap();

    let c = int_const_node(&mut f, 0, ValueType::I64);
    let c_out = f.node_outputs(c).iter().copied().next().unwrap();
    let cast = f.graph_mut().create_node(NodeKind::CastToInt, &[c_out], &[ValueKind::Typed(ValueType::I32)]);
    let cast_out = f.node_outputs(cast).iter().copied().next().unwrap();
    f.graph_mut().create_node(NodeKind::Return, &[entry_ctrl, mem, cast_out], &[]);

    let dot = render(&f, entry);
    assert!(dot.contains("from u64"), "expected 'from u64' in CastToInt label, got:\n{dot}");
    assert!(!dot.contains("from bool"), "CastToInt label must not hard-code 'from bool', got:\n{dot}");
}

/// Rendering a Call node with at least one clobbered output must succeed
/// even when the caller passes `call_clobbered: &[]`.
#[test]
fn tests_render_call_with_clobbered_output_uses_synthetic_label_when_slice_short() {
    let mut f = test_function();
    let entry = f.graph_mut().create_node(NodeKind::Entry, &[], &[ValueKind::Control]);
    f.set_entry(entry);
    let init_mem = f.graph_mut().create_node(NodeKind::InitialMemory, &[], &[ValueKind::Memory]);
    let entry_ctrl = f.node_outputs(entry).iter().copied().next().unwrap();
    let mem = f.node_outputs(init_mem).iter().copied().next().unwrap();
    let target = int_const_node(&mut f, 0x1000, ValueType::I64);
    let target_out = f.node_outputs(target).iter().copied().next().unwrap();
    // One Bool clobbered output, but `call_clobbered` slice is empty.
    let call = f.graph_mut().create_node(NodeKind::Call { cc: None }, &[entry_ctrl, mem, target_out], &[
            ValueKind::Control,
            ValueKind::Memory,
            ValueKind::Typed(ValueType::I1),
        ]);
    let call_ctrl = f.node_outputs(call).iter().copied().next().unwrap();
    let call_mem = f.node_outputs(call).iter().copied().nth(1).unwrap();
    let clob_out = f.node_outputs(call).iter().copied().nth(2).unwrap();
    f.graph_mut().create_node(NodeKind::Return, &[call_ctrl, call_mem, clob_out], &[]);

    // Render must not panic.
    let dot = render(&f, entry);
    assert!(dot.contains("clob0"), "expected synthetic clob0 label, got:\n{dot}");
}

/// `CallOther` whose user-op name is recorded in `Function::call_other_names`
/// must render with both the symbolic name and the numeric id.
#[test]
fn tests_call_other_label_includes_resolved_name() {
    let mut f = test_function();
    let entry = f.graph_mut().create_node(NodeKind::Entry, &[], &[ValueKind::Control]);
    f.set_entry(entry);
    let init_mem = f.graph_mut().create_node(NodeKind::InitialMemory, &[], &[ValueKind::Memory]);
    let entry_ctrl = f.node_outputs(entry).iter().copied().next().unwrap();
    let mem = f.node_outputs(init_mem).iter().copied().next().unwrap();
    let co = f.graph_mut().create_node(NodeKind::CallOther { user_op_id: 62 }, &[entry_ctrl, mem], &[ValueKind::Control, ValueKind::Memory]);
    f.side_tables_mut().set_call_other_name(co, "setISAMode".to_string());
    let co_ctrl = f.node_outputs(co).iter().copied().next().unwrap();
    let co_mem = f.node_outputs(co).iter().copied().nth(1).unwrap();
    f.graph_mut().create_node(NodeKind::Return, &[co_ctrl, co_mem], &[]);

    let dot = render(&f, entry);
    assert!(
        dot.contains("setISAMode #62"),
        "label must show resolved name and id together:\n{dot}",
    );
}

/// `CallOther` without a recorded name (synthetic test graph) falls back
/// to the bare numeric id; the label must NOT contain a stray space where
/// the missing name would have gone.
#[test]
fn tests_call_other_label_falls_back_to_id_when_name_missing() {
    let mut f = test_function();
    let entry = f.graph_mut().create_node(NodeKind::Entry, &[], &[ValueKind::Control]);
    f.set_entry(entry);
    let init_mem = f.graph_mut().create_node(NodeKind::InitialMemory, &[], &[ValueKind::Memory]);
    let entry_ctrl = f.node_outputs(entry).iter().copied().next().unwrap();
    let mem = f.node_outputs(init_mem).iter().copied().next().unwrap();
    let co = f.graph_mut().create_node(NodeKind::CallOther { user_op_id: 7 }, &[entry_ctrl, mem], &[ValueKind::Control, ValueKind::Memory]);
    // Intentionally do NOT call `set_call_other_name`.
    let co_ctrl = f.node_outputs(co).iter().copied().next().unwrap();
    let co_mem = f.node_outputs(co).iter().copied().nth(1).unwrap();
    f.graph_mut().create_node(NodeKind::Return, &[co_ctrl, co_mem], &[]);

    let dot = render(&f, entry);
    assert!(
        dot.contains("CallOther #7"),
        "label must show the bare id when no name is recorded:\n{dot}",
    );
    assert!(
        !dot.contains("CallOther  #7"),
        "no double-space (placeholder for the missing name) should leak:\n{dot}",
    );
}

/// `MemProject` nodes must render as "MemProject" in the label.
#[test]
fn mempartition_label_is_memproject() {
    let mut f = test_function();
    let entry = f.graph_mut().create_node(NodeKind::Entry, &[], &[ValueKind::Control]);
    f.set_entry(entry);
    let [entry_ctrl] = f.node_outputs_exact::<1>(entry).unwrap();

    // One MemProject node with two output slots (Stack=0, Unknown=1).
    let init_mem = f.graph_mut().create_node(NodeKind::InitialMemory, &[], &[ValueKind::Memory]);
    let [mem_out] = f.node_outputs_exact::<1>(init_mem).unwrap();
    let mp = f.graph_mut().create_node(NodeKind::MemProject, &[mem_out], &[
            ValueKind::MemoryPart(AliasClass::Stack),
            ValueKind::MemoryPart(AliasClass::Unknown),
        ]);
    let mp_outs = f.node_outputs(mp).to_vec();
    // Use the Stack output (slot 0) to feed Return.
    let mu = f.graph_mut().create_node(NodeKind::MemUnion, &[mp_outs[0], mp_outs[1]], &[ValueKind::Memory]);
    let [mu_out] = f.node_outputs_exact::<1>(mu).unwrap();
    f.graph_mut().create_node(NodeKind::Return, &[entry_ctrl, mu_out], &[]);

    let dot = render(&f, entry);

    assert!(
        dot.contains("MemProject"),
        "MemProject label must contain 'MemProject':\n{dot}",
    );
    assert!(
        !dot.contains("MemProjectId("),
        "raw MemProjectId debug repr must not appear in label:\n{dot}",
    );
}

/// Edges from a `MemProject` node's output slots must carry alias-class labels
/// (e.g. `"mem:Stack"` / `"mem:Unknown"`) derived from the slot's
/// `NodeOutputKind`.  A `MemUnion` consuming both outputs must also show the
/// class labels on each incoming edge.
#[test]
fn mem_project_edges_carry_alias_class_label() {
    let mut f = test_function();
    let entry = f.graph_mut().create_node(NodeKind::Entry, &[], &[ValueKind::Control]);
    f.set_entry(entry);
    let [entry_ctrl] = f.node_outputs_exact::<1>(entry).unwrap();

    // InitialMemory → MemProject[Stack, Unknown] → MemUnion → Return
    let init_mem = f.graph_mut().create_node(NodeKind::InitialMemory, &[], &[ValueKind::Memory]);
    let [mem_out] = f.node_outputs_exact::<1>(init_mem).unwrap();

    let mp = f.graph_mut().create_node(NodeKind::MemProject, &[mem_out], &[
            ValueKind::MemoryPart(AliasClass::Stack),
            ValueKind::MemoryPart(AliasClass::Unknown),
        ]);
    let mp_outs = f.node_outputs(mp).to_vec();

    // MemUnion joins both partitions back to a unified memory.
    let mu = f.graph_mut().create_node(NodeKind::MemUnion, &[mp_outs[0], mp_outs[1]], &[ValueKind::Memory]);
    let [mu_out] = f.node_outputs_exact::<1>(mu).unwrap();

    f.graph_mut().create_node(NodeKind::Return, &[entry_ctrl, mu_out], &[]);

    let dot = render(&f, entry);

    // Edge labels for MemProject outputs.
    assert!(
        dot.contains("mem:Stack"),
        "partitioned memory edges from MemProject slot 0 must be labelled 'mem:Stack':\n{dot}",
    );
    assert!(
        dot.contains("mem:Unknown"),
        "partitioned memory edges from MemProject slot 1 must be labelled 'mem:Unknown':\n{dot}",
    );

    // At least two edge lines must carry an alias-class label.
    let labelled_edges = edge_lines(&dot)
        .into_iter()
        .filter(|l| l.contains("mem:Stack") || l.contains("mem:Unknown"))
        .count();
    assert!(
        labelled_edges >= 2,
        "expected ≥2 alias-class-labelled edges (one per partition), got {labelled_edges}:\n{dot}",
    );

    // The colon in the label is reserved in unquoted dot identifiers
    // (used for `node:port` references), so the partition labels must
    // appear quoted in the emitted dot.  Unquoted `label=mem:Stack`
    // would be a parse error in any strict dot consumer (viz.js,
    // graphviz).
    assert!(
        dot.contains("label=\"mem:Stack\"") && dot.contains("label=\"mem:Unknown\""),
        "partition-class labels must be quoted in the emitted dot (colon is reserved in unquoted IDs):\n{dot}",
    );
    assert!(
        !dot.contains("label=mem:Stack") && !dot.contains("label=mem:Unknown"),
        "partition-class labels must NEVER appear unquoted in the emitted dot:\n{dot}",
    );
}

// ── stack_offsets addr-edge suppression ──────────────────────────────────

/// A `Store` whose `stack_offsets` entry is populated must NOT have an edge
/// from the addr-producer to the Store node in the rendered DOT output.
/// A `Store` without a `stack_offsets` entry MUST have an addr edge.
#[test]
fn store_addr_edge_suppressed_when_stack_offset_present() {
    // Build: Entry → Region → Store(ram) → Return, with an addr IntConst.
    let mut f = test_function();

    let entry = f.graph_mut().create_node(NodeKind::Entry, &[], &[ValueKind::Control]);
    f.set_entry(entry);
    let [entry_ctrl] = f.node_outputs_exact::<1>(entry).unwrap();

    let init_mem = f.graph_mut().create_node(NodeKind::InitialMemory, &[], &[ValueKind::Memory]);
    let [mem0] = f.node_outputs_exact::<1>(init_mem).unwrap();

    let region = f.graph_mut().create_node(NodeKind::Region, &[entry_ctrl], &[ValueKind::Control, ValueKind::PhiToken]);
    let [region_ctrl, _phi_tok] = f.node_outputs_exact::<2>(region).unwrap();

    // addr is a constant (SP + 0x10 — represented as a raw IntConst here).
    let addr = int_const_node(&mut f, 0x10, ValueType::I64);
    let [addr_out] = f.node_outputs_exact::<1>(addr).unwrap();

    // data value to store.
    let val = int_const_node(&mut f, 0xdeadbeef, ValueType::I32);
    let [val_out] = f.node_outputs_exact::<1>(val).unwrap();

    // Store(ram): inputs = [mem, addr, data], output = [mem].
    let store = f.graph_mut().create_node(NodeKind::Store(VnSpace::ram()), &[mem0, addr_out, val_out], &[ValueKind::Memory]);
    let [store_mem] = f.node_outputs_exact::<1>(store).unwrap();

    f.graph_mut().create_node(NodeKind::Return, &[region_ctrl, store_mem], &[]);

    // ── no stack_offset entry: addr edge MUST be present ──────

    let dot_no_offset = render(&f, entry);

    // The addr const node ("const 0x10:u64") must appear.
    assert!(
        dot_no_offset.contains("0x10"),
        "addr const must appear when no stack offset is set:\n{dot_no_offset}",
    );

    // Count total edges — baseline for the with-offset comparison.
    let edge_count_no_offset = edge_lines(&dot_no_offset).len();

    // ── stack_offset present: addr edge must be suppressed ─────

    f.set_stack_offset(store, addr_out, 0x10_i64);

    let dot_with_offset = render(&f, entry);

    // The node label must contain the offset text.
    assert!(
        dot_with_offset.contains("[sp+16]"),
        "Store label must show stack offset when stack_offset is set:\n{dot_with_offset}",
    );

    // The addr const's value must NOT appear as an edge endpoint
    // referencing the Store — i.e. the dot output has one fewer edge
    // than the no-offset case (the addr edge was dropped).
    let edge_count_with_offset = edge_lines(&dot_with_offset).len();
    assert!(
        edge_count_with_offset < edge_count_no_offset,
        "stack-offset Store must have fewer edges than non-stack Store \
         (addr edge suppressed): {edge_count_with_offset} vs {edge_count_no_offset}:\n\
         without offset:\n{dot_no_offset}\n\nwith offset:\n{dot_with_offset}",
    );
}

/// A `Load` whose `stack_offsets` entry is populated must NOT have an edge
/// from the addr-producer to the Load node in the rendered DOT output.
#[test]
fn load_addr_edge_suppressed_when_stack_offset_present() {
    let mut f = test_function();

    let entry = f.graph_mut().create_node(NodeKind::Entry, &[], &[ValueKind::Control]);
    f.set_entry(entry);
    let [entry_ctrl] = f.node_outputs_exact::<1>(entry).unwrap();

    let init_mem = f.graph_mut().create_node(NodeKind::InitialMemory, &[], &[ValueKind::Memory]);
    let [mem0] = f.node_outputs_exact::<1>(init_mem).unwrap();

    // addr.
    let addr = int_const_node(&mut f, 0x8, ValueType::I64);
    let [addr_out] = f.node_outputs_exact::<1>(addr).unwrap();

    // Load(ram): inputs = [mem, addr], output = [value].
    let load = f.graph_mut().create_node(NodeKind::Load(VnSpace::ram()), &[mem0, addr_out], &[ValueKind::Typed(ValueType::I64)]);
    let [load_out] = f.node_outputs_exact::<1>(load).unwrap();

    f.graph_mut().create_node(NodeKind::Return, &[entry_ctrl, load_out], &[]);

    // Without stack offset: addr const appears.
    let dot_no_offset = render(&f, entry);
    let edges_no_offset = edge_lines(&dot_no_offset).len();

    // With stack offset: addr edge is suppressed.
    f.set_stack_offset(load, addr_out, -8_i64);
    let dot_with_offset = render(&f, entry);

    assert!(
        dot_with_offset.contains("[sp-8]"),
        "Load label must show negative stack offset:\n{dot_with_offset}",
    );

    let edges_with_offset = edge_lines(&dot_with_offset).len();
    assert!(
        edges_with_offset < edges_no_offset,
        "stack-offset Load must have fewer edges than non-stack Load \
         (addr edge suppressed): {edges_with_offset} vs {edges_no_offset}:\n\
         without offset:\n{dot_no_offset}\n\nwith offset:\n{dot_with_offset}",
    );
}

/// Nodes registered as `FunctionArg` carriers must show `[arg N]` in their
/// rendered label and a `peripheries=2` attribute for the double border.
#[test]
fn tests_function_arg_node_label_includes_arg_index() {
    let mut f = test_function();
    let entry = f.graph_mut().create_node(NodeKind::Entry, &[], &[ValueKind::Control]);
    f.set_entry(entry);
    let [entry_ctrl] = f.node_outputs_exact::<1>(entry).unwrap();

    // Create an InitialVar (stand-in for a register arg carrier) and register
    // it as argument index 0.
    let init_var = f.graph_mut().create_node(NodeKind::InitialVar(InitialVnId(0)), &[], &[ValueKind::Typed(ValueType::I64)]);
    let [iv_out] = f.node_outputs_exact::<1>(init_var).unwrap();
    f.side_tables_mut().register_arg_value(0, iv_out);

    // Wire it into a Return so it's reachable.
    f.graph_mut().create_node(NodeKind::Return, &[entry_ctrl, iv_out], &[]);

    let dot = render(&f, entry);

    assert!(
        dot.contains("[arg 0]"),
        "arg carrier node label must contain '[arg 0]':\n{dot}",
    );
    assert!(
        dot.contains("peripheries"),
        "arg carrier node must have peripheries attribute (double border):\n{dot}",
    );
}

/// A constant whose node says nothing of its type shows its value bare.
#[test]
fn a_constant_without_a_type_shows_its_value() {
    let mut f = test_function();
    let id = f.intern_int_const(0x2a, ValueType::I64);
    let bare = f.graph_mut().create_node(NodeKind::IntConst(id), &[], &[]);
    let naming = probe_naming();
    assert_eq!(pretty_label(Dialect::Graph, &f, &naming, bare), "const 0x2a");
    assert_eq!(pretty_label(Dialect::Function, &f, &naming, bare), "const 0x0");
}

/// A float constant of a type that is no float is read as a double.
#[test]
fn a_float_constant_of_another_type_is_read_as_a_double() {
    let mut f = test_function();
    let odd = f.graph_mut().create_node(
        NodeKind::FloatConst(0x10),
        &[],
        &[ValueKind::Typed(ValueType::I64)],
    );
    let long = f.graph_mut().create_node(
        NodeKind::FloatConst(0x10),
        &[],
        &[ValueKind::Typed(ValueType::F80)],
    );
    let naming = Naming {
        floats: vec![FloatText {
            single: false,
            bits: 0x10,
            text: "tiny".to_string(),
        }],
        ..probe_naming()
    };
    assert_eq!(pretty_label(Dialect::Graph, &f, &naming, odd), "const tiny:f64");
    assert_eq!(pretty_label(Dialect::Function, &f, &naming, odd), "const 0x10:i64");
    assert_eq!(pretty_label(Dialect::Graph, &f, &naming, long), "const 0x10:f80");
}
