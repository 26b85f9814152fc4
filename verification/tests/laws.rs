//! The laws of the library on concrete values.

use strider_ir::dot::args::build_arg_reverse_map;
use strider_ir::dot::emitter::{DotEmitter, DotStyle};
use strider_ir::dot::graph_dot::GraphDotDumper;
use strider_ir::dot::naming::Naming;
use strider_ir::dot::neighborhood::{build_consumers, neighborhood_nodes};
use strider_ir::function::edit::edit_function::EditFunction;
use strider_ir::function::func::Function;
use strider_ir::graph::Graph;
use strider_ir::node::{
    ConstId, IntBinaryOp, IntUnaryOp, NodeId, NodeKind, ValueId, ValueKind, ValueType,
};
use strider_ir::target::{BuiltCallingConvention, Endianness, Vn, VnSpace};

const I64: ValueKind = ValueKind::Typed(ValueType::I64);
const I32: ValueKind = ValueKind::Typed(ValueType::I32);

fn empty_function() -> Function {
    Function::new(
        BuiltCallingConvention::trivial(),
        Endianness::Little,
        Vec::new(),
    )
}

fn constant(f: &mut Function, value: u128) -> ValueId {
    f.build_int_const(value, ValueType::I64).unwrap()
}

fn add(f: &mut Function, a: ValueId, b: ValueId) -> ValueId {
    let node = f
        .graph_mut()
        .create_node(NodeKind::IntBinaryOp(IntBinaryOp::Add), &[a, b], &[I64]);
    f.node_outputs(node)[0]
}

/// Entry, a return of `5 + 6`, and a dead `7 + 5`, in one of two orders.
fn sample(dead_first: bool) -> (Function, ValueId, NodeId) {
    let mut f = empty_function();
    let mut dead = None;
    if dead_first {
        let seven = constant(&mut f, 7);
        let five = constant(&mut f, 5);
        dead = Some(add(&mut f, seven, five));
    }
    let five = constant(&mut f, 5);
    let six = constant(&mut f, 6);
    let sum = add(&mut f, five, six);
    let producer = f.producer(sum);
    f.side_tables_mut()
        .extend_asm_fingerprint(producer, &[0x1004, 0x1000]);
    let ctrl = f.node_outputs(f.entry())[0];
    let ret = f
        .graph_mut()
        .create_node(NodeKind::Return, &[ctrl, sum], &[]);
    if dead.is_none() {
        let seven = constant(&mut f, 7);
        add(&mut f, seven, five);
    }
    (f, sum, ret)
}

const SAMPLE_LINES: &str = "%v0:ctrl = entry\n\
%v1:i64 = iconst[0x5]\n\
%v2:i64 = iconst[0x6]\n\
%v3:i64 = int.add %v1, %v2  @{0x1000, 0x1004}\n\
return %v0, %v3\n";

#[test]
fn functions_that_look_alike_print_the_same_text() {
    let (a, _, _) = sample(false);
    let (b, _, _) = sample(true);
    assert!(a.to_text(true).ends_with(SAMPLE_LINES), "{}", a.to_text(true));
    assert_eq!(a.to_text(true), b.to_text(true));
    assert_eq!(a.to_text(false), b.to_text(false));
    assert_ne!(a.to_text(true), a.to_text(false));
}

#[test]
fn compaction_keeps_the_text_and_what_can_be_reached() {
    let (mut f, sum, _) = sample(true);
    let before = f.to_text(true);
    let reachable = f.walk().len();
    assert!(reachable < f.graph().node_count());
    let remap = f.compact().unwrap();
    assert_eq!(f.to_text(true), before);
    assert_eq!(f.graph().node_count(), reachable);
    assert_eq!(f.walk().len(), reachable);
    assert_eq!(f.entry(), NodeId(0));
    let moved = remap.output_old_to_new(sum).unwrap();
    assert_eq!(f.value_kind(moved), I64);
    f.compact().unwrap();
    assert_eq!(f.to_text(true), before);
}

#[test]
fn a_copy_prints_the_same_text() {
    let (f, _, _) = sample(true);
    let copy = f.duplicate();
    assert_eq!(copy.to_text(true), f.to_text(true));
}

#[test]
fn what_prints_is_what_can_be_reached() {
    let (f, _, _) = sample(true);
    let mut printed: Vec<u32> = f.print_order().iter().map(|n| n.0).collect();
    let mut walked: Vec<u32> = f.walk().iter().map(|n| n.0).collect();
    printed.sort();
    walked.sort();
    assert_eq!(printed, walked);
}

#[test]
fn a_shared_structure_is_made_once() {
    let mut g = Graph::new();
    let a = g.create_node(NodeKind::IntConst(ConstId(1)), &[], &[I64]);
    let count = g.node_count();
    let b = g.create_node(NodeKind::IntConst(ConstId(1)), &[], &[I64]);
    assert_eq!(a, b);
    assert_eq!(g.node_count(), count);
}

#[test]
fn unshared_nodes_are_always_fresh() {
    let mut g = Graph::new();
    let a = g.create_node(NodeKind::Region, &[], &[ValueKind::Control]);
    let b = g.create_node(NodeKind::Region, &[], &[ValueKind::Control]);
    assert_ne!(a, b);
}

#[test]
fn different_structures_are_different_nodes() {
    let mut g = Graph::new();
    let c = g.create_node(NodeKind::IntConst(ConstId(1)), &[], &[I64]);
    let other_kind = g.create_node(NodeKind::IntConst(ConstId(2)), &[], &[I64]);
    let other_output = g.create_node(NodeKind::IntConst(ConstId(1)), &[], &[I32]);
    assert_ne!(c, other_kind);
    assert_ne!(c, other_output);
    let (x, y) = (g.node_outputs(c)[0], g.node_outputs(other_kind)[0]);
    let xy = g.create_node(NodeKind::IntBinaryOp(IntBinaryOp::Add), &[x, y], &[I64]);
    let yx = g.create_node(NodeKind::IntBinaryOp(IntBinaryOp::Add), &[y, x], &[I64]);
    assert_ne!(xy, yx);
}

#[test]
fn use_lists_say_which_inputs_read_a_value() {
    let mut g = Graph::new();
    let c = g.create_node(NodeKind::IntConst(ConstId(1)), &[], &[I64]);
    let x = g.node_outputs(c)[0];
    let xx = g.create_node(NodeKind::IntBinaryOp(IntBinaryOp::Add), &[x, x], &[I64]);
    assert_eq!(g.value_uses(x), vec![(xx, 1), (xx, 0)]);
    let first = g.value_first_use_id(x).unwrap();
    assert_eq!(g.node_of_use(first), xx);
    assert_eq!(g.input_output_id(first), x);
    let second = g.next_use(first).unwrap();
    assert_eq!(g.next_use(second), None);
}

#[test]
fn redirecting_changes_one_input_and_forgets_the_structure() {
    let mut g = Graph::new();
    let a = g.create_node(NodeKind::IntConst(ConstId(1)), &[], &[I64]);
    let b = g.create_node(NodeKind::IntConst(ConstId(2)), &[], &[I64]);
    let (x, y) = (g.node_outputs(a)[0], g.node_outputs(b)[0]);
    let sum = g.create_node(NodeKind::IntBinaryOp(IntBinaryOp::Add), &[x, x], &[I64]);
    let slot = g.node_input_id_at(sum, 1).unwrap();
    g.update_input(slot, y);
    assert_eq!(g.node_inputs(sum).iter(), vec![x, y]);
    let again = g.create_node(NodeKind::IntBinaryOp(IntBinaryOp::Add), &[x, x], &[I64]);
    assert_ne!(again, sum);
}

#[test]
fn replacing_every_use_drains_the_old_value() {
    let mut g = Graph::new();
    let a = g.create_node(NodeKind::IntConst(ConstId(1)), &[], &[I64]);
    let b = g.create_node(NodeKind::IntConst(ConstId(2)), &[], &[I64]);
    let (x, y) = (g.node_outputs(a)[0], g.node_outputs(b)[0]);
    let sum = g.create_node(NodeKind::IntBinaryOp(IntBinaryOp::Add), &[x, x], &[I64]);
    assert!(g.replace_all_uses(x, y));
    assert!(g.value_uses(x).is_empty());
    assert_eq!(g.node_inputs(sum).iter(), vec![y, y]);
    assert!(!g.replace_all_uses(x, y));
    assert!(!g.replace_all_uses(y, y));
}

#[test]
fn an_input_added_and_removed_leaves_nothing_behind() {
    let mut g = Graph::new();
    let a = g.create_node(NodeKind::IntConst(ConstId(1)), &[], &[I64]);
    let x = g.node_outputs(a)[0];
    let phi = g.create_node(NodeKind::Phi, &[x], &[I64]);
    let before = g.value_uses(x);
    g.add_node_input(phi, x).unwrap();
    assert_eq!(g.node_inputs(phi).len(), 2);
    g.remove_node_input(phi, 1).unwrap();
    assert_eq!(g.node_inputs(phi).iter(), vec![x]);
    assert_eq!(g.value_uses(x), before);
}

#[test]
fn inputs_taken_out_together_leave_the_others_in_order() {
    let mut g = Graph::new();
    let mut values = Vec::new();
    for i in 0..5 {
        let c = g.create_node(NodeKind::IntConst(ConstId(i)), &[], &[I64]);
        values.push(g.node_outputs(c)[0]);
    }
    let phi = g.create_node(NodeKind::Phi, &values, &[I64]);
    g.remove_node_inputs_batch(phi, &[3, 0, 3, 17]);
    assert_eq!(
        g.node_inputs(phi).iter(),
        vec![values[1], values[2], values[4]]
    );
}

#[test]
fn a_rebuilt_cache_knows_every_shared_structure() {
    let mut g = Graph::new();
    let a = g.create_node(NodeKind::IntConst(ConstId(1)), &[], &[I64]);
    let b = g.create_node(NodeKind::IntConst(ConstId(2)), &[], &[I64]);
    let (x, y) = (g.node_outputs(a)[0], g.node_outputs(b)[0]);
    let sum = g.create_node(NodeKind::IntBinaryOp(IntBinaryOp::Add), &[x, x], &[I64]);
    let slot = g.node_input_id_at(sum, 1).unwrap();
    g.update_input(slot, y);
    g.rebuild_cache();
    let found = g.create_node(NodeKind::IntBinaryOp(IntBinaryOp::Add), &[x, y], &[I64]);
    assert_eq!(found, sum);
}

#[test]
fn every_producer_comes_before_its_readers() {
    let (f, sum, ret) = sample(false);
    let order = f.graph().reverse_postorder(f.entry());
    let at = |n: NodeId| order.iter().position(|&m| m == n).unwrap();
    let add_node = f.producer(sum);
    for v in f.node_inputs(add_node).iter() {
        assert!(at(f.producer(v)) < at(add_node));
    }
    assert!(at(add_node) < at(ret));
}

#[test]
fn killing_orphans_operands_and_cleaning_up_kills_them() {
    let (mut f, sum, ret) = sample(false);
    let five = f.producer(f.node_inputs(f.producer(sum)).iter()[0]);
    let sum_node = f.producer(sum);
    let mut ctx = EditFunction::new(&mut f);
    ctx.cull_dead();
    ctx.kill_node(ret);
    assert!(!ctx.is_live(ret));
    assert!(ctx.is_live(sum_node), "waits to be looked at");
    ctx.clean();
    assert!(!ctx.is_live(sum_node));
    assert!(!ctx.is_live(five));
    assert!(!ctx.is_root(five));
    let live = ctx.live_snapshot().to_vec();
    ctx.clean();
    assert_eq!(ctx.live_snapshot().to_vec(), live);
}

#[test]
fn culling_twice_is_culling_once() {
    let (mut f, _, _) = sample(false);
    let mut ctx = EditFunction::new(&mut f);
    ctx.cull_dead();
    let first = ctx.function().to_text(true);
    let live = ctx.live_snapshot().to_vec();
    let roots = ctx.roots_snapshot().to_vec();
    ctx.cull_dead();
    assert_eq!(ctx.function().to_text(true), first);
    assert_eq!(ctx.live_snapshot().to_vec(), live);
    assert_eq!(ctx.roots_snapshot().to_vec(), roots);
}

#[test]
fn merging_a_twin_joins_the_fingerprints() {
    let mut f = empty_function();
    let x = constant(&mut f, 1);
    let y = constant(&mut f, 2);
    let z = constant(&mut f, 3);
    let xy = add(&mut f, x, y);
    let xz = add(&mut f, x, z);
    let (a, c) = (f.producer(xy), f.producer(xz));
    f.side_tables_mut().extend_asm_fingerprint(a, &[0xA]);
    f.side_tables_mut().extend_asm_fingerprint(c, &[0xC]);
    let ctrl = f.node_outputs(f.entry())[0];
    f.graph_mut()
        .create_node(NodeKind::Return, &[ctrl, xy, xz], &[]);
    let mut ctx = EditFunction::new(&mut f);
    let slot = ctx.graph_ref().node_input_id_at(c, 1).unwrap();
    ctx.update_input(slot, y);
    ctx.clean();
    assert!(!ctx.is_live(c));
    assert_eq!(ctx.function().side_tables().asm_fingerprint(a), &[0xA, 0xC]);
}

#[test]
fn live_stays_closed_under_what_feeds_it() {
    let (mut f, sum, ret) = sample(false);
    let mut ctx = EditFunction::new(&mut f);
    let neg = ctx.create_node(NodeKind::IntUnaryOp(IntUnaryOp::Neg), &[sum], &[I64]);
    let negated = ctx.function().node_outputs(neg)[0];
    let slot = ctx.graph_ref().node_input_id_at(ret, 1).unwrap();
    ctx.redirect_input(slot, negated);
    ctx.clean();
    for node in ctx.live_snapshot().to_vec() {
        for value in ctx.function().node_inputs(node).iter() {
            assert!(ctx.is_live(ctx.function().producer(value)));
        }
    }
    assert_eq!(ctx.live_of_kind(|k: &NodeKind| matches!(k, NodeKind::Return)), vec![ret]);
}

#[test]
fn equal_constants_get_one_id_however_they_are_spelled() {
    let mut f = empty_function();
    let a = f.intern_int_const(0x1_0000_0000_0000_0002, ValueType::I128);
    let b = f.intern_int_const_limbs(&[2, 1], ValueType::I128);
    let c = f.intern_int_const_limbs(&[2, 1, 9, 9], ValueType::I128);
    assert_eq!(a, b);
    assert_eq!(a, c);
    let wide = f.intern_int_const_limbs(&[2, 1, 0, 7], ValueType::I256);
    let same = f.intern_int_const_limbs(&[2, 1, 0, 7, 5], ValueType::I256);
    assert_eq!(wide, same);
    assert_ne!(wide, a);
    assert_eq!(f.const_value(wide).fits_u128(), None);
    assert_eq!(f.const_value(a).fits_u128(), Some(0x1_0000_0000_0000_0002));
}

#[test]
fn drawing_twice_gives_the_same_text() {
    let (f, sum, _) = sample(true);
    let naming = Naming {
        default_code_space: VnSpace::ram(),
        registers: Vec::new(),
        floats: Vec::new(),
    };
    let dumper = f.dot_dumper(&naming);
    assert_eq!(
        dumper.as_dot(DotStyle::dark()),
        dumper.as_dot(DotStyle::dark())
    );
    let center = f.producer(sum);
    let around = f.raw_neighborhood_dot(center, 2, 8, 100, false);
    assert_eq!(around, f.raw_neighborhood_dot(center, 2, 8, 100, false));
    assert!(around.contains("ffcc00"), "{around}");
}

#[test]
fn a_budget_keeps_the_nearest_nodes() {
    let mut f = empty_function();
    let x = constant(&mut f, 1);
    let y = add(&mut f, x, x);
    let z = add(&mut f, y, y);
    let ctrl = f.node_outputs(f.entry())[0];
    f.graph_mut()
        .create_node(NodeKind::Return, &[ctrl, z], &[]);
    let consumers = build_consumers(&f);
    let (a, b) = (f.producer(x), f.producer(y));
    let near = neighborhood_nodes(&f, a, 9, 99, 2, false, &consumers);
    assert_eq!(near.to_vec(), vec![a, b]);
}

#[test]
fn a_copied_graph_shares_and_forgets_on_its_own() {
    let mut g = Graph::new();
    let a = g.create_node(NodeKind::IntConst(ConstId(1)), &[], &[I64]);
    let mut copy = g.duplicate();
    assert_eq!(
        copy.create_node(NodeKind::IntConst(ConstId(1)), &[], &[I64]),
        a
    );
    let b = copy.create_node(NodeKind::IntConst(ConstId(2)), &[], &[I64]);
    assert_eq!(copy.node_count(), 2);
    assert_eq!(g.node_count(), 1);
    copy.detach_node_inputs(b);
    let again = copy.create_node(NodeKind::IntConst(ConstId(2)), &[], &[I64]);
    assert_ne!(again, b);
}

#[test]
fn every_edge_joins_declared_boxes() {
    let (f, sum, _) = sample(true);
    let naming = Naming {
        default_code_space: VnSpace::ram(),
        registers: Vec::new(),
        floats: Vec::new(),
    };
    let dumper = f.dot_dumper(&naming);
    for dot in [
        dumper.as_dot(DotStyle::empty()),
        dumper.neighborhood_dot(f.producer(sum), 1, 8, 100, false),
    ] {
        let declared: Vec<&str> = dot
            .lines()
            .filter(|l| l.contains("[label=") && !l.contains("->"))
            .filter_map(|l| l.split('"').nth(1))
            .collect();
        let edges: Vec<&str> = dot.lines().filter(|l| l.contains("->")).collect();
        assert!(!edges.is_empty(), "{dot}");
        for line in edges {
            let parts: Vec<&str> = line.split('"').collect();
            assert!(declared.contains(&parts[1]), "{dot}");
            assert!(declared.contains(&parts[3]), "{dot}");
        }
    }
}

#[test]
fn taking_predecessors_out_keeps_phis_in_step() {
    let mut f = empty_function();
    let ctrl = f.node_outputs(f.entry())[0];
    let (a, b, c) = (
        constant(&mut f, 1),
        constant(&mut f, 2),
        constant(&mut f, 3),
    );
    let region = f.graph_mut().create_node(
        NodeKind::Region,
        &[ctrl, ctrl, ctrl],
        &[ValueKind::Control, ValueKind::PhiToken],
    );
    let (out, token) = (f.node_outputs(region)[0], f.node_outputs(region)[1]);
    let phi = f
        .graph_mut()
        .create_node(NodeKind::Phi, &[token, a, b, c], &[I64]);
    let value = f.node_outputs(phi)[0];
    f.graph_mut()
        .create_node(NodeKind::Return, &[out, value], &[]);
    let mut ctx = EditFunction::new(&mut f);
    ctx.remove_region_predecessors(region, &[1, 1, 9]).unwrap();
    assert_eq!(ctx.function().node_inputs(region).len(), 2);
    assert_eq!(ctx.function().node_inputs(phi).iter(), vec![token, a, c]);
    let two = ctx.function().producer(b);
    assert!(ctx.is_live(two));
    ctx.clean();
    assert!(!ctx.is_live(two), "nothing reads it any more");
}

#[test]
fn an_edit_registers_argument_carriers() {
    let (mut f, sum, _) = sample(false);
    let mut ctx = EditFunction::new(&mut f);
    ctx.register_arg_value(2, sum);
    assert_eq!(ctx.function().side_tables().arg_index_to_values(2), &[sum]);
    assert!(ctx.function().side_tables().arg_index_to_values(0).is_empty());
    assert_eq!(ctx.function().side_tables().iter_arg_indices(), vec![2]);
    assert!(ctx.is_live(ctx.function().producer(sum)));
}

#[test]
fn ids_of_a_drawing_map_back_to_their_nodes() {
    let mut f = empty_function();
    let ctrl = f.node_outputs(f.entry())[0];
    let cond = f.build_int_const(1, ValueType::I1).unwrap();
    let branch = f.graph_mut().create_node(
        NodeKind::If,
        &[ctrl, cond],
        &[ValueKind::Control, ValueKind::Control],
    );
    let (yes, no) = (f.node_outputs(branch)[0], f.node_outputs(branch)[1]);
    let a = f.graph_mut().create_node(NodeKind::Return, &[yes], &[]);
    let b = f.graph_mut().create_node(NodeKind::Return, &[no], &[]);
    let naming = Naming {
        default_code_space: VnSpace::ram(),
        registers: Vec::new(),
        floats: Vec::new(),
    };
    let dumper = f.dot_dumper(&naming);
    let (dot, state) = dumper.as_dot_with_state(DotStyle::empty());
    for node in [f.entry(), branch, a, b] {
        assert_eq!(state.node_of_dot_id(&node.0.to_string()), Some(node), "{dot}");
    }
    let mut declared: Vec<&str> = dot
        .lines()
        .filter(|l| l.contains("[label=") && !l.contains("->"))
        .filter_map(|l| l.split('"').nth(1))
        .collect();
    let all = declared.len();
    declared.sort();
    declared.dedup();
    assert_eq!(declared.len(), all, "each id is declared once:\n{dot}");
    for id in declared {
        match id.chars().next() {
            Some('v') => assert_eq!(state.node_of_dot_id(id), None),
            Some('c') => assert_eq!(state.node_of_dot_id(id), Some(f.producer(cond))),
            _ => assert!(state.node_of_dot_id(id).is_some()),
        }
    }
    assert_eq!(dot.matches("if.true").count(), 1, "{dot}");
    assert_eq!(dot.matches("if.false").count(), 1, "{dot}");
    let own = format!("\"{}\" -> ", branch.0);
    let leaving: Vec<&str> = dot.lines().filter(|l| l.contains(&own)).collect();
    assert_eq!(leaving.len(), 2, "{dot}");
    assert!(leaving.iter().all(|l| l.contains("-> \"v")), "{dot}");
}

#[test]
fn fingerprints_only_add_suffixes() {
    let (f, _, _) = sample(true);
    let with = f.to_text(true);
    let without = f.to_text(false);
    let cut: Vec<&str> = with
        .lines()
        .map(|l| l.split("  @{").next().unwrap())
        .collect();
    assert_eq!(cut, without.lines().collect::<Vec<_>>());
    assert_eq!(with.matches("  @{").count(), 1);
}

#[test]
fn tracked_varnodes_get_the_same_ids_in_any_order() {
    let vns: Vec<Vn> = (0..4)
        .map(|i| Vn { addr_off: 8 * i, addr_space: VnSpace::register(), size: 8 })
        .collect();
    let mut turned = vns.clone();
    turned.reverse();
    turned.push(vns[1]);
    let cc = || BuiltCallingConvention::trivial();
    let a = Function::new(cc(), Endianness::Little, vns.clone());
    let b = Function::new(cc(), Endianness::Little, turned);
    assert_eq!(a.all_vns(), b.all_vns());
    for vn in &vns {
        assert_eq!(a.vn_id_of(vn), b.vn_id_of(vn));
    }
}

#[test]
fn limbs_are_one_constant_exactly_modulo_the_width() {
    let mut f = empty_function();
    let a = f.intern_int_const_limbs(&[0x1_0005], ValueType::I16);
    let b = f.intern_int_const_limbs(&[0x5, 7], ValueType::I16);
    let c = f.intern_int_const_limbs(&[0x6], ValueType::I16);
    assert_eq!(a, b);
    assert_ne!(a, c);
    let d = f.intern_int_const_limbs(&[1, 0x1_0000], ValueType::I80);
    let e = f.intern_int_const_limbs(&[1], ValueType::I80);
    assert_eq!(d, e);
}

#[test]
fn cutting_down_twice_drops_nothing_more() {
    let (f, _, _) = sample(true);
    let mut g = f.graph().duplicate();
    g.retain_reachable(f.entry());
    let count = g.node_count();
    let remap = g.retain_reachable(NodeId(0));
    assert_eq!(g.node_count(), count);
    assert_eq!(remap.surviving_node_pairs().len(), count);
}

#[test]
fn a_new_function_knows_nothing_yet() {
    let f = empty_function();
    let tables = f.side_tables();
    assert!(tables.iter_arg_indices().is_empty());
    assert!(tables.iter_float_arg_indices().is_empty());
    assert_eq!(tables.call_other_name(f.entry()), None);
    assert_eq!(tables.frame_escape(), None);
    assert_eq!(f.graph().use_count(), 0);
    assert_eq!(f.graph().value_count(), 1);
}

#[test]
fn a_graph_drawing_declares_each_id_once_and_feeds_branches_from_their_boxes() {
    let mut f = empty_function();
    let ctrl = f.node_outputs(f.entry())[0];
    let cond = f.build_int_const(1, ValueType::I1).unwrap();
    let branch = f.graph_mut().create_node(
        NodeKind::If,
        &[ctrl, cond],
        &[ValueKind::Control, ValueKind::Control],
    );
    let (yes, no) = (f.node_outputs(branch)[0], f.node_outputs(branch)[1]);
    f.graph_mut().create_node(NodeKind::Return, &[yes, cond], &[]);
    f.graph_mut().create_node(NodeKind::Return, &[no, cond], &[]);
    let naming = Naming {
        default_code_space: VnSpace::ram(),
        registers: Vec::new(),
        floats: Vec::new(),
    };
    let dumper = GraphDotDumper {
        entry: f.entry(),
        function: &f,
        naming: &naming,
        call_clobbered: &[],
        ret_val_regs: &[],
        node_filter: None,
        node_to_arg_indices: build_arg_reverse_map(&f),
    };
    let dot = dumper.as_dot(DotStyle::empty());
    let boxes: Vec<(&str, &str)> = dot
        .lines()
        .filter(|l| l.contains("[label=") && !l.contains("->"))
        .filter_map(|l| l.split('"').nth(1).map(|id| (id, l)))
        .collect();
    let mut ids: Vec<&str> = boxes.iter().map(|b| b.0).collect();
    ids.sort();
    ids.dedup();
    assert_eq!(ids.len(), boxes.len(), "each id is declared once:\n{dot}");
    let id_of = |label: &str| {
        let found: Vec<&str> = boxes.iter().filter(|b| b.1.contains(label)).map(|b| b.0).collect();
        assert_eq!(found.len(), 1, "{label}:\n{dot}");
        found[0]
    };
    let (if_id, t, e) = (id_of("\"If\""), id_of("if.true"), id_of("if.false"));
    let edges = |from: &str| {
        let start = format!("\"{from}\" -> ");
        dot.lines().filter(|l| l.contains(&start)).count()
    };
    assert_eq!((edges(if_id), edges(t), edges(e)), (2, 1, 1), "{dot}");
    assert!(dot.contains(&format!("\"{if_id}\" -> \"{t}\"")), "{dot}");
    assert!(dot.contains(&format!("\"{if_id}\" -> \"{e}\"")), "{dot}");
}

#[test]
fn handing_out_ids_keeps_what_they_stand_for() {
    let mut f = empty_function();
    let entry = f.entry();
    let c = constant(&mut f, 7);
    let c = f.producer(c);
    let naming = Naming {
        default_code_space: VnSpace::ram(),
        registers: Vec::new(),
        floats: Vec::new(),
    };
    let dumper = f.dot_dumper(&naming);
    let mut state = dumper.create_initial_state();
    assert!(state.renders_per_use(f.graph(), c));
    assert!(!state.renders_per_use(f.graph(), entry));
    let own = state.get_dot_id(f.graph(), entry);
    assert_eq!(own, entry.0.to_string());
    assert_eq!(state.get_dot_id(f.graph(), entry), own);
    let first = state.get_dot_id(f.graph(), c);
    let none = state.alloc_virtual_id();
    let second = state.get_dot_id(f.graph(), c);
    assert_eq!((first.as_str(), none.as_str(), second.as_str()), ("c0", "v1", "c2"));
    assert_eq!(state.node_of_dot_id(&own), Some(entry));
    assert_eq!(state.node_of_dot_id(&first), Some(c));
    assert_eq!(state.node_of_dot_id(&second), Some(c));
    assert_eq!(state.node_of_dot_id(&none), None);
}

#[test]
fn branches_are_drawn_once_and_then_reused() {
    let mut f = empty_function();
    let ctrl = f.node_outputs(f.entry())[0];
    let cond = f.build_int_const(1, ValueType::I1).unwrap();
    let branch = f.graph_mut().create_node(
        NodeKind::If,
        &[ctrl, cond],
        &[ValueKind::Control, ValueKind::Control],
    );
    let naming = Naming {
        default_code_space: VnSpace::ram(),
        registers: Vec::new(),
        floats: Vec::new(),
    };
    let dumper = f.dot_dumper(&naming);
    let mut state = dumper.create_initial_state();
    let mut out = DotEmitter::new("G", &DotStyle::empty());
    dumper.emit_if_branch_virtuals(branch, "x", &mut out, &mut state);
    dumper.emit_if_branch_virtuals(branch, "x", &mut out, &mut state);
    let dot = out.finish();
    assert_eq!(dot.matches("if.true").count(), 1, "{dot}");
    assert_eq!(dot.matches("if.false").count(), 1, "{dot}");
    assert_eq!(dot.matches("\"x\" -> \"v0\"").count(), 2, "{dot}");
    assert_eq!(dot.matches("\"x\" -> \"v1\"").count(), 2, "{dot}");
}
