//! What varnodes, spaces and floating-point constants are called.

use crate::fmt::{dec, hex0x, padded_hex, push_dec, push_hex0x, push_padded_hex};
use crate::target::{Vn, VnSpace};
use vstd::prelude::*;
use vstd::string::{StrSliceExecFns, StringExecFns};

verus! {

/// A register and its name.
pub struct RegisterName {
    pub vn: Vn,
    pub name: String,
}

/// How a floating-point number of 32 or 64 bits is written.
pub struct FloatText {
    pub single: bool,
    pub bits: u64,
    pub text: String,
}

/// The names a target has for things.
pub struct Naming {
    /// The space that instructions are fetched from.
    pub default_code_space: VnSpace,
    pub registers: Vec<RegisterName>,
    pub floats: Vec<FloatText>,
}

/// The first name of a register from place `i` on.
pub open spec fn register_from(regs: Seq<RegisterName>, vn: Vn, i: int) -> Option<Seq<char>>
    decreases regs.len() - i,
{
    if i < 0 || i >= regs.len() {
        None
    } else if regs[i].vn == vn {
        Some(regs[i].name@)
    } else {
        register_from(regs, vn, i + 1)
    }
}

/// The first text of a number from place `i` on.
pub open spec fn float_from(floats: Seq<FloatText>, single: bool, bits: u64, i: int) -> Option<
    Seq<char>,
>
    decreases floats.len() - i,
{
    if i < 0 || i >= floats.len() {
        None
    } else if floats[i].single == single && floats[i].bits == bits {
        Some(floats[i].text@)
    } else {
        float_from(floats, single, bits, i + 1)
    }
}

/// The characters from a space to `~`, in code order.
pub open spec fn printable() -> Seq<char> {
    " !\"#$%&'()*+,-./0123456789:;<=>?@ABCDEFGHIJKLMNOPQRSTUVWXYZ[\\]^_`abcdefghijklmnopqrstuvwxyz{|}~"@
}

/// The shortcut of a space: its character, or its number where it has none.
pub open spec fn shortcut_text(space: VnSpace) -> Seq<char> {
    let b = space.byte();
    if 32 <= b <= 126 {
        printable().subrange(b - 32, b - 31)
    } else {
        "0x"@ + padded_hex(b as nat, 2)
    }
}

/// The name of a space: a word for the common ones, else its shortcut.
pub open spec fn space_name_text(space: VnSpace) -> Seq<char> {
    let b = space.byte();
    if b == 37 {
        "register"@
    } else if b == 117 {
        "unique"@
    } else if b == 114 {
        "ram"@
    } else {
        shortcut_text(space)
    }
}

pub(crate) fn shortcut_str(space: VnSpace) -> (r: String)
    ensures
        r@ == shortcut_text(space),
{
    let b = space.shortcut_raw();
    if 32 <= b && b <= 126 {
        let all =
            " !\"#$%&'()*+,-./0123456789:;<=>?@ABCDEFGHIJKLMNOPQRSTUVWXYZ[\\]^_`abcdefghijklmnopqrstuvwxyz{|}~";
        proof {
            reveal_strlit(
                " !\"#$%&'()*+,-./0123456789:;<=>?@ABCDEFGHIJKLMNOPQRSTUVWXYZ[\\]^_`abcdefghijklmnopqrstuvwxyz{|}~",
            );
        }
        let one = all.substring_char((b - 32) as usize, (b - 31) as usize);
        one.to_owned()
    } else {
        let mut s = "0x".to_owned();
        push_padded_hex(&mut s, b as u64, 2);
        s
    }
}

fn space_name(space: VnSpace) -> (r: String)
    ensures
        r@ == space_name_text(space),
{
    let b = space.shortcut_raw();
    if b == 37 {
        "register".to_owned()
    } else if b == 117 {
        "unique".to_owned()
    } else if b == 114 {
        "ram".to_owned()
    } else {
        shortcut_str(space)
    }
}

impl Naming {
    pub open spec fn register(&self, vn: Vn) -> Option<Seq<char>> {
        register_from(self.registers@, vn, 0)
    }

    pub open spec fn float(&self, single: bool, bits: u64) -> Option<Seq<char>> {
        float_from(self.floats@, single, bits, 0)
    }

    /// A named register goes by its name, a constant by its value and size,
    /// anything else by space, offset and size.
    pub open spec fn vn_name(&self, vn: Vn) -> Seq<char> {
        if vn.addr_space.byte() == 37 && self.register(vn) is Some {
            self.register(vn)->0
        } else if vn.addr_space.byte() == 35 {
            hex0x(vn.addr_off as nat) + ":"@ + dec(vn.size as nat)
        } else {
            space_name_text(vn.addr_space) + "["@ + hex0x(vn.addr_off as nat) + "]:"@ + dec(
                vn.size as nat,
            )
        }
    }

    /// The word for a space: the code space is memory whatever it is called.
    pub open spec fn space_word(&self, space: VnSpace) -> Seq<char> {
        let b = space.byte();
        if space == self.default_code_space {
            "ram"@
        } else if b == 35 {
            "const"@
        } else if b == 37 {
            "register"@
        } else if b == 117 {
            "unique"@
        } else if b == 114 {
            "ram"@
        } else {
            "??"@
        }
    }

    /// The word for a space.
    pub fn pretty_vnspace(&self, space: VnSpace) -> (r: &'static str)
        ensures
            r@ == self.space_word(space),
    {
        let b = space.shortcut_raw();
        if space == self.default_code_space {
            "ram"
        } else if b == 35 {
            "const"
        } else if b == 37 {
            "register"
        } else if b == 117 {
            "unique"
        } else if b == 114 {
            "ram"
        } else {
            "??"
        }
    }

    fn find_register(&self, vn: &Vn) -> (r: Option<&String>)
        ensures
            match r {
                Some(s) => self.register(*vn) == Some(s@),
                None => self.register(*vn) is None,
            },
    {
        let mut i: usize = 0;
        while i < self.registers.len()
            invariant
                i <= self.registers.len(),
                register_from(self.registers@, *vn, 0) == register_from(
                    self.registers@,
                    *vn,
                    i as int,
                ),
            decreases self.registers.len() - i,
        {
            if self.registers[i].vn == *vn {
                return Some(&self.registers[i].name);
            }
            i += 1;
        }
        None
    }

    /// How a number is written, where that is known.
    pub fn float_text(&self, single: bool, bits: u64) -> (r: Option<&String>)
        ensures
            match r {
                Some(s) => self.float(single, bits) == Some(s@),
                None => self.float(single, bits) is None,
            },
    {
        let mut i: usize = 0;
        while i < self.floats.len()
            invariant
                i <= self.floats.len(),
                float_from(self.floats@, single, bits, 0) == float_from(
                    self.floats@,
                    single,
                    bits,
                    i as int,
                ),
            decreases self.floats.len() - i,
        {
            if self.floats[i].single == single && self.floats[i].bits == bits {
                return Some(&self.floats[i].text);
            }
            i += 1;
        }
        None
    }

    /// The name of a varnode.
    pub fn vn_to_name(&self, vn: &Vn) -> (r: String)
        ensures
            r@ == self.vn_name(*vn),
    {
        let b = vn.addr_space.shortcut_raw();
        if b == 37 {
            if let Some(name) = self.find_register(vn) {
                return name.as_str().to_owned();
            }
        }
        if b == 35 {
            let mut s = String::new();
            push_hex0x(&mut s, vn.addr_off as u128);
            s.append(":");
            push_dec(&mut s, vn.size as u128);
            assert(s@ =~= self.vn_name(*vn));
            s
        } else {
            let mut s = space_name(vn.addr_space);
            s.append("[");
            push_hex0x(&mut s, vn.addr_off as u128);
            s.append("]:");
            push_dec(&mut s, vn.size as u128);
            s
        }
    }
}

/// The name of a varnode, as a target calls it.
pub fn vn_to_display_name(naming: &Naming, vn: &Vn) -> (r: String)
    ensures
        r@ == naming.vn_name(*vn),
{
    naming.vn_to_name(vn)
}

} // verus!
