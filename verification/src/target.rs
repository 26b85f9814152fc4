//! Target-machine data the graph is annotated with: varnodes, byte order and
//! calling conventions.

use vstd::prelude::*;

verus! {

/// An address space, identified by its one-byte shortcut.
#[derive(Clone, Copy, PartialEq, Eq, Structural, Debug, Hash, PartialOrd, Ord)]
pub struct VnSpace {
    shortcut: u8,
}

impl VnSpace {
    /// The shortcut byte that identifies the space.
    pub closed spec fn byte(self) -> u8 {
        self.shortcut
    }

    /// The space with the given shortcut byte.
    pub fn new(shortcut: u8) -> (r: VnSpace)
        ensures
            r.byte() == shortcut,
    {
        VnSpace { shortcut }
    }

    /// The space of constants.
    pub fn constant() -> (r: VnSpace)
        ensures
            r.byte() == 35u8,
    {
        VnSpace { shortcut: 35 }
    }

    /// The register space.
    pub fn register() -> (r: VnSpace)
        ensures
            r.byte() == 37u8,
    {
        VnSpace { shortcut: 37 }
    }

    /// The space of temporaries.
    pub fn unique() -> (r: VnSpace)
        ensures
            r.byte() == 117u8,
    {
        VnSpace { shortcut: 117 }
    }

    /// Main memory.
    pub fn ram() -> (r: VnSpace)
        ensures
            r.byte() == 114u8,
    {
        VnSpace { shortcut: 114 }
    }

    /// The shortcut byte.
    pub fn shortcut_raw(self) -> (r: u8)
        ensures
            r == self.byte(),
    {
        self.shortcut
    }

    /// The space with a given byte.
    pub closed spec fn of_byte(b: u8) -> VnSpace {
        VnSpace { shortcut: b }
    }

    /// The byte of a space gives the space back.
    pub proof fn lemma_of_byte()
        ensures
            forall|s: VnSpace| #[trigger] VnSpace::of_byte(s.byte()) == s,
    {
    }
}

/// A varnode: `size` bytes at offset `addr_off` of `addr_space`.
#[derive(Clone, Copy, PartialEq, Eq, Structural, Debug, Hash)]
pub struct Vn {
    pub addr_off: u64,
    pub addr_space: VnSpace,
    pub size: u32,
}

/// Byte order of the target.
#[derive(Clone, Copy, PartialEq, Eq, Structural, Debug)]
pub enum Endianness {
    Little,
    Big,
}

/// Where a convention puts the arguments that do not fit its registers.
#[derive(Clone, Copy, PartialEq, Eq, Structural, Debug)]
pub struct StackArgs {
    pub base_offset: i64,
    pub increment: i64,
}

/// A calling convention with every register resolved to its varnode.
#[derive(Clone, Debug)]
pub struct BuiltCallingConvention {
    pub arg_passing_regs: Vec<Vn>,
    pub arg_passing_regs_float: Vec<Vn>,
    pub callee_saved_regs: Vec<Vn>,
    pub ret_val_regs: Vec<Vn>,
    pub ret_val_regs_float: Vec<Vn>,
    pub stack_vn: Vn,
    pub stack_args: Option<StackArgs>,
    pub ret_stack_pop: i64,
    pub link_register_vn: Option<Vn>,
    pub preserves_memory: bool,
    pub preserves_all_registers: bool,
    pub no_return: bool,
}

/// What a convention is made of.
pub struct CcModel {
    pub arg_passing_regs: Seq<Vn>,
    pub arg_passing_regs_float: Seq<Vn>,
    pub callee_saved_regs: Seq<Vn>,
    pub ret_val_regs: Seq<Vn>,
    pub ret_val_regs_float: Seq<Vn>,
    pub stack_vn: Vn,
    pub stack_args: Option<StackArgs>,
    pub ret_stack_pop: i64,
    pub link_register_vn: Option<Vn>,
    pub preserves_memory: bool,
    pub preserves_all_registers: bool,
    pub no_return: bool,
}

impl View for BuiltCallingConvention {
    type V = CcModel;

    open spec fn view(&self) -> CcModel {
        CcModel {
            arg_passing_regs: self.arg_passing_regs@,
            arg_passing_regs_float: self.arg_passing_regs_float@,
            callee_saved_regs: self.callee_saved_regs@,
            ret_val_regs: self.ret_val_regs@,
            ret_val_regs_float: self.ret_val_regs_float@,
            stack_vn: self.stack_vn,
            stack_args: self.stack_args,
            ret_stack_pop: self.ret_stack_pop,
            link_register_vn: self.link_register_vn,
            preserves_memory: self.preserves_memory,
            preserves_all_registers: self.preserves_all_registers,
            no_return: self.no_return,
        }
    }
}

/// Whether two varnode lists are equal.
pub fn same_vns(a: &Vec<Vn>, b: &Vec<Vn>) -> (r: bool)
    ensures
        r == (a@ == b@),
{
    if a.len() != b.len() {
        return false;
    }
    let mut i: usize = 0;
    while i < a.len()
        invariant
            a.len() == b.len(),
            i <= a.len(),
            forall|j: int| 0 <= j < i ==> a@[j] == b@[j],
        decreases a.len() - i,
    {
        if a[i] != b[i] {
            return false;
        }
        i += 1;
    }
    assert(a@ =~= b@);
    true
}

/// A copy of a varnode list.
pub fn copy_vns(a: &Vec<Vn>) -> (r: Vec<Vn>)
    ensures
        r@ == a@,
{
    let mut r: Vec<Vn> = Vec::new();
    let mut i: usize = 0;
    while i < a.len()
        invariant
            i <= a.len(),
            r@ == a@.take(i as int),
        decreases a.len() - i,
    {
        r.push(a[i]);
        i += 1;
        assert(r@ =~= a@.take(i as int));
    }
    assert(a@.take(i as int) =~= a@);
    r
}

impl BuiltCallingConvention {
    /// The convention of a function with no known ABI: no registers, and a
    /// stack pointer at an offset of the register space no machine uses.
    pub fn trivial() -> (r: BuiltCallingConvention)
        ensures
            r@.arg_passing_regs.len() == 0,
            r@.arg_passing_regs_float.len() == 0,
            r@.callee_saved_regs.len() == 0,
            r@.ret_val_regs.len() == 0,
            r@.ret_val_regs_float.len() == 0,
            r.stack_vn.addr_off == 0xffff_ffff_ffff_0000,
            r.stack_vn.addr_space.byte() == 37u8,
            r.stack_vn.size == 8,
            r.stack_args is None,
            r.ret_stack_pop == 0,
            r.link_register_vn is None,
            !r.preserves_memory,
            !r.preserves_all_registers,
            !r.no_return,
    {
        BuiltCallingConvention {
            arg_passing_regs: Vec::new(),
            arg_passing_regs_float: Vec::new(),
            callee_saved_regs: Vec::new(),
            ret_val_regs: Vec::new(),
            ret_val_regs_float: Vec::new(),
            stack_vn: Vn {
                addr_off: 0xffff_ffff_ffff_0000,
                addr_space: VnSpace::register(),
                size: 8,
            },
            stack_args: None,
            ret_stack_pop: 0,
            link_register_vn: None,
            preserves_memory: false,
            preserves_all_registers: false,
            no_return: false,
        }
    }

    /// Whether two conventions agree in every field.
    pub fn same(&self, other: &Self) -> (r: bool)
        ensures
            r == (self@ == other@),
    {
        same_vns(&self.arg_passing_regs, &other.arg_passing_regs) && same_vns(
            &self.arg_passing_regs_float,
            &other.arg_passing_regs_float,
        ) && same_vns(&self.callee_saved_regs, &other.callee_saved_regs) && same_vns(
            &self.ret_val_regs,
            &other.ret_val_regs,
        ) && same_vns(&self.ret_val_regs_float, &other.ret_val_regs_float) && self.stack_vn
            == other.stack_vn && self.stack_args == other.stack_args && self.ret_stack_pop
            == other.ret_stack_pop && self.link_register_vn == other.link_register_vn
            && self.preserves_memory == other.preserves_memory && self.preserves_all_registers
            == other.preserves_all_registers && self.no_return == other.no_return
    }

    /// An independent copy.
    pub fn duplicate(&self) -> (r: Self)
        ensures
            r@ == self@,
    {
        BuiltCallingConvention {
            arg_passing_regs: copy_vns(&self.arg_passing_regs),
            arg_passing_regs_float: copy_vns(&self.arg_passing_regs_float),
            callee_saved_regs: copy_vns(&self.callee_saved_regs),
            ret_val_regs: copy_vns(&self.ret_val_regs),
            ret_val_regs_float: copy_vns(&self.ret_val_regs_float),
            stack_vn: self.stack_vn,
            stack_args: self.stack_args,
            ret_stack_pop: self.ret_stack_pop,
            link_register_vn: self.link_register_vn,
            preserves_memory: self.preserves_memory,
            preserves_all_registers: self.preserves_all_registers,
            no_return: self.no_return,
        }
    }
}

} // verus!
