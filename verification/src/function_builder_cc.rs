//! The part of a calling convention that building a function takes.

use crate::target::{copy_vns, BuiltCallingConvention, Vn};
use vstd::prelude::*;

verus! {

/// What a function builder reads of a calling convention.
#[derive(Debug)]
pub struct FunctionBuilderCC {
    /// Registers that pass arguments, in order.
    pub arg_passing_regs: Vec<Vn>,
    /// Registers a callee restores, the stack pointer aside.
    pub callee_saved_regs: Vec<Vn>,
    /// Integer return registers, in order.
    pub ret_val_regs: Vec<Vn>,
    /// Float return registers, in order.
    pub ret_val_regs_float: Vec<Vn>,
    /// The stack pointer.
    pub stack_ptr_vn: Vn,
    /// What a callee's return adds to the caller's stack pointer.
    pub ret_stack_pop: i64,
    /// Whether a call leaves memory as it is.
    pub no_memory_clobber: bool,
}

impl FunctionBuilderCC {
    /// The slice of a built convention.
    pub fn from_built(cc: &BuiltCallingConvention) -> (r: FunctionBuilderCC)
        ensures
            r.arg_passing_regs@ == cc@.arg_passing_regs,
            r.callee_saved_regs@ == cc@.callee_saved_regs,
            r.ret_val_regs@ == cc@.ret_val_regs,
            r.ret_val_regs_float@ == cc@.ret_val_regs_float,
            r.stack_ptr_vn == cc.stack_vn,
            r.ret_stack_pop == cc.ret_stack_pop,
            r.no_memory_clobber == cc.preserves_memory,
    {
        FunctionBuilderCC {
            arg_passing_regs: copy_vns(&cc.arg_passing_regs),
            callee_saved_regs: copy_vns(&cc.callee_saved_regs),
            ret_val_regs: copy_vns(&cc.ret_val_regs),
            ret_val_regs_float: copy_vns(&cc.ret_val_regs_float),
            stack_ptr_vn: cc.stack_vn,
            ret_stack_pop: cc.ret_stack_pop,
            no_memory_clobber: cc.preserves_memory,
        }
    }
}

} // verus!
