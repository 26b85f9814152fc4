//! Numbers, names, labels and styles, each as an exact text.

use rustc_hash::FxHasher;
use strider_ir::cache::hash_borrowed_key;
use strider_ir::const_value::ConstValue;
use strider_ir::dot::label::signed_offset;
use strider_ir::dot::naming::{FloatText, Naming, RegisterName};
use strider_ir::dot::raw::fmt_vn;
use strider_ir::dot::style::{bare_name, input_role, node_shape, pred_index, role_name, unsigned_name};
use strider_ir::fmt::{push_bool, push_dec, push_hex0x, push_padded_hex, push_signed};
use strider_ir::function::cc::largest_container_in;
use strider_ir::function::func::{vn_sort_key, Function};
use strider_ir::function::text::order::{cfg_reverse_postorder, cfg_succs_of, is_phi, phi_region};
use strider_ir::function::text::render::{const_str, op_name, space_str, value_kind_str, vn_list, vn_str};
use strider_ir::graph::policy::IrCacheable;
use strider_ir::mem_partition::AliasClass;
use strider_ir::node::{IntBinaryOp, NodeKind, ValueId, ValueKind, ValueType};
use strider_ir::target::{BuiltCallingConvention, Endianness, Vn, VnSpace};

fn reg(addr_off: u64, size: u32) -> Vn {
    Vn { addr_off, addr_space: VnSpace::register(), size }
}

#[test]
fn numbers() {
    let mut s = String::new();
    push_dec(&mut s, 0);
    s.push(' ');
    push_dec(&mut s, u128::MAX);
    s.push(' ');
    push_hex0x(&mut s, 0xdead_beef);
    s.push(' ');
    push_padded_hex(&mut s, 0x1f, 4);
    s.push(' ');
    push_signed(&mut s, i64::MIN);
    s.push(' ');
    push_bool(&mut s, false);
    assert_eq!(
        s,
        "0 340282366920938463463374607431768211455 0xdeadbeef 001f -9223372036854775808 false"
    );
}

#[test]
fn constants_of_any_width() {
    assert_eq!(const_str(&ConstValue::Bits(0x10)), "0x10");
    assert_eq!(
        const_str(&ConstValue::Wide(vec![0xff, 0, 0, 0x12])),
        "0x120000000000000000000000000000000000000000000000ff"
    );
}

#[test]
fn varnodes_and_spaces() {
    assert_eq!(space_str(VnSpace::register()), "%");
    assert_eq!(space_str(VnSpace::new(b':')), "0x3a");
    assert_eq!(space_str(VnSpace::new(7)), "0x07");
    assert_eq!(vn_str(&reg(0x20, 8)), "%:0x20:8");
    assert_eq!(vn_list(&[reg(0, 4), reg(8, 4)]), "[%:0x0:4, %:0x8:4]");
    assert_eq!(vn_list(&[]), "[]");
    assert_eq!(vn_sort_key(&reg(3, 2)), (b'%', 3, 2));
    assert!(!fmt_vn(&reg(3, 2)).is_empty());
}

#[test]
fn operations_and_kinds() {
    assert_eq!(op_name(&NodeKind::IntBinaryOp(IntBinaryOp::Sdiv)), "int.sdiv");
    assert_eq!(op_name(&NodeKind::MemPhi), "memphi");
    assert_eq!(value_kind_str(ValueKind::PhiToken), "token");
    assert_eq!(
        value_kind_str(ValueKind::MemoryPart(AliasClass::Stack)),
        "mem.stack"
    );
    assert_eq!(value_kind_str(ValueKind::Typed(ValueType::I8)), "i8");
    assert_eq!(ValueType::I8.bit_width(), 8);
    assert_eq!(ValueType::I8.byte_size(), 1);
    assert_eq!(ValueType::I16.bit_mask_u128(), 0xffff);
    assert!(ValueType::I256.is_wide_int());
    assert!(!ValueType::F64.is_integer());
    assert_eq!(ValueKind::Memory.as_value(), None);
    assert_eq!(
        ValueKind::MemoryPart(AliasClass::Rom).memory_partition(),
        Some(AliasClass::Rom)
    );
    assert_eq!(AliasClass::Heap.as_str(), "Heap");
}

#[test]
fn operation_names_tell_operations_apart() {
    let kinds = [
        NodeKind::Entry,
        NodeKind::Phi,
        NodeKind::MemPhi,
        NodeKind::Load(VnSpace::ram()),
        NodeKind::Store(VnSpace::ram()),
        NodeKind::IntBinaryOp(IntBinaryOp::Add),
        NodeKind::IntBinaryOp(IntBinaryOp::Mul),
        NodeKind::IntBinaryOp(IntBinaryOp::Div),
        NodeKind::IntBinaryOp(IntBinaryOp::Sdiv),
    ];
    for (i, a) in kinds.iter().enumerate() {
        for (j, b) in kinds.iter().enumerate() {
            assert_eq!(op_name(a) == op_name(b), i == j);
        }
    }
    assert_eq!(
        op_name(&NodeKind::Load(VnSpace::ram())),
        op_name(&NodeKind::Load(VnSpace::unique()))
    );
}

#[test]
fn drawing_styles() {
    assert_eq!(unsigned_name(ValueType::I64), "u64");
    assert_eq!(bare_name(&NodeKind::Return), "Return");
    assert!(!node_shape(&NodeKind::If).is_empty());
    assert_eq!(pred_index(NodeKind::Phi, 1), Some(0));
    assert_eq!(pred_index(NodeKind::Region, 1), Some(1));
    assert_eq!(pred_index(NodeKind::Return, 1), None);
    assert_eq!(signed_offset(16), " + 16");
    assert_eq!(signed_offset(-8), " - 8");
    let role = input_role(&NodeKind::Load(VnSpace::ram()), 1).unwrap();
    assert!(!role_name(role).is_empty());
}

#[test]
fn names_of_a_target() {
    let naming = Naming {
        default_code_space: VnSpace::ram(),
        registers: vec![RegisterName { vn: reg(0, 8), name: "RAX".to_string() }],
        floats: vec![FloatText { single: false, bits: 0, text: "0".to_string() }],
    };
    assert_eq!(naming.vn_to_name(&reg(0, 8)), "RAX");
    assert_ne!(naming.vn_to_name(&reg(0, 4)), "RAX");
    assert_eq!(naming.float_text(false, 0).map(String::as_str), Some("0"));
    assert_eq!(naming.float_text(true, 0), None);
}

#[test]
fn the_largest_container_wins() {
    let vns = [reg(0, 4), reg(0, 8), reg(16, 8)];
    assert_eq!(largest_container_in(&vns, &reg(0, 2)), reg(0, 8));
    assert_eq!(largest_container_in(&vns, &reg(32, 2)), reg(32, 2));
}

#[test]
fn hashes_follow_the_structure() {
    let kind = NodeKind::IntBinaryOp(IntBinaryOp::Add);
    let outs = [ValueKind::Typed(ValueType::I64)];
    let a = hash_borrowed_key(FxHasher::default(), &kind, &[ValueId(1), ValueId(2)], &outs);
    let b = hash_borrowed_key(FxHasher::default(), &kind, &[ValueId(1), ValueId(2)], &outs);
    let c = hash_borrowed_key(FxHasher::default(), &kind, &[ValueId(2), ValueId(1)], &outs);
    assert_eq!(a, b);
    assert_ne!(a, c);
    assert_eq!(a, IrCacheable::hash(&kind, &[ValueId(1), ValueId(2)], &outs));
    let k: u64 = 0xf135_7aea_2e62_a9c5;
    if usize::BITS == 64 {
        let one_then_zeros = hash_borrowed_key(FxHasher::default(), &NodeKind::InitialMemory, &[], &[]);
        assert_eq!(one_then_zeros, k.wrapping_pow(7).rotate_left(26));
    }
    assert_eq!(hash_borrowed_key(FxHasher::default(), &NodeKind::Entry, &[], &[]), 0);
    let seeded = hash_borrowed_key(FxHasher::with_seed(1), &NodeKind::Entry, &[], &[]);
    if usize::BITS == 64 {
        assert_eq!(seeded, k.wrapping_pow(7).rotate_left(26));
    }
    assert!(IrCacheable::should_cache(&kind));
    assert!(!IrCacheable::should_cache(&NodeKind::Return));
}

#[test]
fn user_operations_print_their_names_quoted() {
    let mut f = Function::new(
        BuiltCallingConvention::trivial(),
        Endianness::Little,
        Vec::new(),
    );
    f.set_call_other_name(7, "a\"b".to_string());
    let ctrl = f.node_outputs(f.entry())[0];
    f.graph_mut()
        .create_node(NodeKind::CallOther { user_op_id: 7 }, &[ctrl], &[]);
    assert!(
        f.to_text(false).ends_with("callother[7 \"a\\\"b\"] %v0\n"),
        "{}",
        f.to_text(false)
    );
}

#[test]
fn control_flow_of_a_diamond() {
    let mut f = Function::new(
        BuiltCallingConvention::trivial(),
        Endianness::Little,
        Vec::new(),
    );
    let entry = f.entry();
    let ctrl = f.node_outputs(entry)[0];
    let cond = f.build_int_const(1, ValueType::I1).unwrap();
    let branch = f.graph_mut().create_node(
        NodeKind::If,
        &[ctrl, cond],
        &[ValueKind::Control, ValueKind::Control],
    );
    let (yes, no) = (f.node_outputs(branch)[0], f.node_outputs(branch)[1]);
    let join = f.graph_mut().create_node(
        NodeKind::Region,
        &[yes, no],
        &[ValueKind::Control, ValueKind::PhiToken],
    );
    let token = f.node_outputs(join)[1];
    let phi = f.graph_mut().create_node(
        NodeKind::Phi,
        &[token, cond, cond],
        &[ValueKind::Typed(ValueType::I1)],
    );
    assert!(is_phi(f.node_kind(phi)));
    assert_eq!(phi_region(&f, phi), Some(join));
    assert_eq!(phi_region(&f, join), None);
    assert_eq!(cfg_succs_of(&f, branch), vec![join, join]);
    assert_eq!(cfg_reverse_postorder(&f), vec![entry, branch, join]);
}
