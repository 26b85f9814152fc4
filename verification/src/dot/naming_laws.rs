//! What spaces, varnodes and registers are called.

use super::naming::{float_from, printable, register_from, shortcut_text, Naming};
use crate::fmt::{dec, hex, padded_hex};
use crate::function::text::render::{graphic, space_text, vn_text};
use crate::target::{Vn, VnSpace};
use vstd::prelude::*;

verus! {

/// The characters in the order of their numbers.
#[verifier::rlimit(60)]
#[verifier::spinoff_prover]
proof fn lemma_printable(i: int)
    requires
        0 <= i < 95,
    ensures
        printable().len() == 95,
        printable()[i] as u32 == 32 + i,
{
    reveal_strlit(" !\"#$%&'()*+,-./0123456789:;<=>?@ABCDEFGHIJKLMNOPQRSTUVWXYZ[\\]^_`abcdefghijklmnopqrstuvwxyz{|}~");
    if i == 0 {
        assert(printable()[0] as u32 == 32);
    } else if i == 1 {
        assert(printable()[1] as u32 == 33);
    } else if i == 2 {
        assert(printable()[2] as u32 == 34);
    } else if i == 3 {
        assert(printable()[3] as u32 == 35);
    } else if i == 4 {
        assert(printable()[4] as u32 == 36);
    } else if i == 5 {
        assert(printable()[5] as u32 == 37);
    } else if i == 6 {
        assert(printable()[6] as u32 == 38);
    } else if i == 7 {
        assert(printable()[7] as u32 == 39);
    } else if i == 8 {
        assert(printable()[8] as u32 == 40);
    } else if i == 9 {
        assert(printable()[9] as u32 == 41);
    } else if i == 10 {
        assert(printable()[10] as u32 == 42);
    } else if i == 11 {
        assert(printable()[11] as u32 == 43);
    } else if i == 12 {
        assert(printable()[12] as u32 == 44);
    } else if i == 13 {
        assert(printable()[13] as u32 == 45);
    } else if i == 14 {
        assert(printable()[14] as u32 == 46);
    } else if i == 15 {
        assert(printable()[15] as u32 == 47);
    } else if i == 16 {
        assert(printable()[16] as u32 == 48);
    } else if i == 17 {
        assert(printable()[17] as u32 == 49);
    } else if i == 18 {
        assert(printable()[18] as u32 == 50);
    } else if i == 19 {
        assert(printable()[19] as u32 == 51);
    } else if i == 20 {
        assert(printable()[20] as u32 == 52);
    } else if i == 21 {
        assert(printable()[21] as u32 == 53);
    } else if i == 22 {
        assert(printable()[22] as u32 == 54);
    } else if i == 23 {
        assert(printable()[23] as u32 == 55);
    } else if i == 24 {
        assert(printable()[24] as u32 == 56);
    } else if i == 25 {
        assert(printable()[25] as u32 == 57);
    } else if i == 26 {
        assert(printable()[26] as u32 == 58);
    } else if i == 27 {
        assert(printable()[27] as u32 == 59);
    } else if i == 28 {
        assert(printable()[28] as u32 == 60);
    } else if i == 29 {
        assert(printable()[29] as u32 == 61);
    } else if i == 30 {
        assert(printable()[30] as u32 == 62);
    } else if i == 31 {
        assert(printable()[31] as u32 == 63);
    } else if i == 32 {
        assert(printable()[32] as u32 == 64);
    } else if i == 33 {
        assert(printable()[33] as u32 == 65);
    } else if i == 34 {
        assert(printable()[34] as u32 == 66);
    } else if i == 35 {
        assert(printable()[35] as u32 == 67);
    } else if i == 36 {
        assert(printable()[36] as u32 == 68);
    } else if i == 37 {
        assert(printable()[37] as u32 == 69);
    } else if i == 38 {
        assert(printable()[38] as u32 == 70);
    } else if i == 39 {
        assert(printable()[39] as u32 == 71);
    } else if i == 40 {
        assert(printable()[40] as u32 == 72);
    } else if i == 41 {
        assert(printable()[41] as u32 == 73);
    } else if i == 42 {
        assert(printable()[42] as u32 == 74);
    } else if i == 43 {
        assert(printable()[43] as u32 == 75);
    } else if i == 44 {
        assert(printable()[44] as u32 == 76);
    } else if i == 45 {
        assert(printable()[45] as u32 == 77);
    } else if i == 46 {
        assert(printable()[46] as u32 == 78);
    } else if i == 47 {
        assert(printable()[47] as u32 == 79);
    } else if i == 48 {
        assert(printable()[48] as u32 == 80);
    } else if i == 49 {
        assert(printable()[49] as u32 == 81);
    } else if i == 50 {
        assert(printable()[50] as u32 == 82);
    } else if i == 51 {
        assert(printable()[51] as u32 == 83);
    } else if i == 52 {
        assert(printable()[52] as u32 == 84);
    } else if i == 53 {
        assert(printable()[53] as u32 == 85);
    } else if i == 54 {
        assert(printable()[54] as u32 == 86);
    } else if i == 55 {
        assert(printable()[55] as u32 == 87);
    } else if i == 56 {
        assert(printable()[56] as u32 == 88);
    } else if i == 57 {
        assert(printable()[57] as u32 == 89);
    } else if i == 58 {
        assert(printable()[58] as u32 == 90);
    } else if i == 59 {
        assert(printable()[59] as u32 == 91);
    } else if i == 60 {
        assert(printable()[60] as u32 == 92);
    } else if i == 61 {
        assert(printable()[61] as u32 == 93);
    } else if i == 62 {
        assert(printable()[62] as u32 == 94);
    } else if i == 63 {
        assert(printable()[63] as u32 == 95);
    } else if i == 64 {
        assert(printable()[64] as u32 == 96);
    } else if i == 65 {
        assert(printable()[65] as u32 == 97);
    } else if i == 66 {
        assert(printable()[66] as u32 == 98);
    } else if i == 67 {
        assert(printable()[67] as u32 == 99);
    } else if i == 68 {
        assert(printable()[68] as u32 == 100);
    } else if i == 69 {
        assert(printable()[69] as u32 == 101);
    } else if i == 70 {
        assert(printable()[70] as u32 == 102);
    } else if i == 71 {
        assert(printable()[71] as u32 == 103);
    } else if i == 72 {
        assert(printable()[72] as u32 == 104);
    } else if i == 73 {
        assert(printable()[73] as u32 == 105);
    } else if i == 74 {
        assert(printable()[74] as u32 == 106);
    } else if i == 75 {
        assert(printable()[75] as u32 == 107);
    } else if i == 76 {
        assert(printable()[76] as u32 == 108);
    } else if i == 77 {
        assert(printable()[77] as u32 == 109);
    } else if i == 78 {
        assert(printable()[78] as u32 == 110);
    } else if i == 79 {
        assert(printable()[79] as u32 == 111);
    } else if i == 80 {
        assert(printable()[80] as u32 == 112);
    } else if i == 81 {
        assert(printable()[81] as u32 == 113);
    } else if i == 82 {
        assert(printable()[82] as u32 == 114);
    } else if i == 83 {
        assert(printable()[83] as u32 == 115);
    } else if i == 84 {
        assert(printable()[84] as u32 == 116);
    } else if i == 85 {
        assert(printable()[85] as u32 == 117);
    } else if i == 86 {
        assert(printable()[86] as u32 == 118);
    } else if i == 87 {
        assert(printable()[87] as u32 == 119);
    } else if i == 88 {
        assert(printable()[88] as u32 == 120);
    } else if i == 89 {
        assert(printable()[89] as u32 == 121);
    } else if i == 90 {
        assert(printable()[90] as u32 == 122);
    } else if i == 91 {
        assert(printable()[91] as u32 == 123);
    } else if i == 92 {
        assert(printable()[92] as u32 == 124);
    } else if i == 93 {
        assert(printable()[93] as u32 == 125);
    } else if i == 94 {
        assert(printable()[94] as u32 == 126);
    }
}

/// The same without the blank.
#[verifier::rlimit(60)]
#[verifier::spinoff_prover]
proof fn lemma_graphic()
    ensures
        graphic() =~= printable().skip(1),
{
    reveal_strlit(" !\"#$%&'()*+,-./0123456789:;<=>?@ABCDEFGHIJKLMNOPQRSTUVWXYZ[\\]^_`abcdefghijklmnopqrstuvwxyz{|}~");
    reveal_strlit("!\"#$%&'()*+,-./0123456789:;<=>?@ABCDEFGHIJKLMNOPQRSTUVWXYZ[\\]^_`abcdefghijklmnopqrstuvwxyz{|}~");
}

/// A space is written as the character whose number is its byte; where that
/// cannot be printed, as two hexadecimal digits.
pub proof fn law_spaces_are_written_by_their_byte(space: VnSpace)
    ensures
        32 <= space.byte() <= 126 ==> shortcut_text(space).len() == 1 && shortcut_text(
            space,
        )[0] as u32 == space.byte(),
        space.byte() < 32 || space.byte() > 126 ==> shortcut_text(space) == "0x"@ + padded_hex(
            space.byte() as nat,
            2,
        ),
        33 <= space.byte() <= 126 && space.byte() != 58 ==> space_text(space) == shortcut_text(
            space,
        ),
        space.byte() <= 32 || space.byte() > 126 || space.byte() == 58 ==> space_text(space)
            == "0x"@ + padded_hex(space.byte() as nat, 2),
{
    let b = space.byte() as int;
    if 32 <= b <= 126 {
        lemma_printable(b - 32);
    }
    if 33 <= b <= 126 && b != 58 {
        lemma_graphic();
        assert(space_text(space) =~= shortcut_text(space));
    }
}

/// In the text form a varnode is its space, its offset and its size, with
/// colons between them.
pub proof fn law_varnodes_are_written_in_three_parts(vn: Vn)
    ensures
        vn_text(vn) == space_text(vn.addr_space) + ":"@ + ("0x"@ + hex(vn.addr_off as nat)) + ":"@
            + dec(vn.size as nat),
{
}

/// The words for the spaces: the space that code is in counts as main memory.
pub proof fn law_space_words(names: &Naming, space: VnSpace)
    ensures
        space == names.default_code_space || space.byte() == 114 ==> names.space_word(space)
            == "ram"@,
        space != names.default_code_space ==> {
            &&& space.byte() == 35 ==> names.space_word(space) == "const"@
            &&& space.byte() == 37 ==> names.space_word(space) == "register"@
            &&& space.byte() == 117 ==> names.space_word(space) == "unique"@
            &&& space.byte() != 35 && space.byte() != 37 && space.byte() != 117 && space.byte()
                != 114 ==> names.space_word(space) == "??"@
        },
{
}

proof fn lemma_register_from(names: &Naming, vn: Vn, i: int, k: int)
    requires
        0 <= i <= k < names.registers@.len(),
        names.registers@[k].vn == vn,
        forall|j: int| 0 <= j < k ==> (#[trigger] names.registers@[j]).vn != vn,
    ensures
        register_from(names.registers@, vn, i) == Some(names.registers@[k].name@),
    decreases k - i,
{
    if i < k {
        assert(names.registers@[i].vn != vn);
        lemma_register_from(names, vn, i + 1, k);
    }
}

proof fn lemma_register_unknown(names: &Naming, vn: Vn, i: int)
    requires
        0 <= i,
        forall|j: int|
            0 <= j < names.registers@.len() ==> (#[trigger] names.registers@[j]).vn != vn,
    ensures
        register_from(names.registers@, vn, i) is None,
    decreases names.registers@.len() - i,
{
    if i < names.registers@.len() {
        assert(names.registers@[i].vn != vn);
        lemma_register_unknown(names, vn, i + 1);
    }
}

/// A register that the target names is called by that name, the first if there
/// are several.
pub proof fn law_registers_go_by_their_names(names: &Naming, vn: Vn, k: int)
    requires
        vn.addr_space.byte() == 37,
        0 <= k < names.registers@.len(),
        names.registers@[k].vn == vn,
        forall|j: int| 0 <= j < k ==> (#[trigger] names.registers@[j]).vn != vn,
    ensures
        names.vn_name(vn) == names.registers@[k].name@,
{
    lemma_register_from(names, vn, 0, k);
}

/// A varnode without a name is its space, its offset in brackets and its size;
/// a constant is its number and its size.
pub proof fn law_unnamed_varnodes(names: &Naming, vn: Vn)
    requires
        vn.addr_space.byte() != 37 || forall|j: int|
            0 <= j < names.registers@.len() ==> (#[trigger] names.registers@[j]).vn != vn,
    ensures
        ({
            let place = "["@ + ("0x"@ + hex(vn.addr_off as nat)) + "]:"@ + dec(vn.size as nat);
            let byte = vn.addr_space.byte();
            &&& byte == 35 ==> names.vn_name(vn) == "0x"@ + hex(vn.addr_off as nat) + ":"@ + dec(
                vn.size as nat,
            )
            &&& byte == 37 ==> names.vn_name(vn) == "register"@ + place
            &&& byte == 117 ==> names.vn_name(vn) == "unique"@ + place
            &&& byte == 114 ==> names.vn_name(vn) == "ram"@ + place
            &&& byte != 35 && byte != 37 && byte != 117 && byte != 114 ==> names.vn_name(vn)
                == shortcut_text(vn.addr_space) + place
        }),
{
    if vn.addr_space.byte() == 37 {
        lemma_register_unknown(names, vn, 0);
    }
    let place = "["@ + ("0x"@ + hex(vn.addr_off as nat)) + "]:"@ + dec(vn.size as nat);
    assert(names.vn_name(vn) =~= if vn.addr_space.byte() == 35 {
        "0x"@ + hex(vn.addr_off as nat) + ":"@ + dec(vn.size as nat)
    } else {
        super::naming::space_name_text(vn.addr_space) + place
    });
}

proof fn lemma_float_from(names: &Naming, single: bool, bits: u64, i: int, k: int)
    requires
        0 <= i <= k < names.floats@.len(),
        names.floats@[k].single == single && names.floats@[k].bits == bits,
        forall|j: int|
            0 <= j < k ==> !((#[trigger] names.floats@[j]).single == single && names.floats@[j].bits
                == bits),
    ensures
        float_from(names.floats@, single, bits, i) == Some(names.floats@[k].text@),
    decreases k - i,
{
    if i < k {
        assert(!(names.floats@[i].single == single && names.floats@[i].bits == bits));
        lemma_float_from(names, single, bits, i + 1, k);
    }
}

/// A number with a fraction is written as the text that is known for its bits
/// and its width, the first if there are several.
pub proof fn law_floats_are_written_as_known(names: &Naming, single: bool, bits: u64, k: int)
    requires
        0 <= k < names.floats@.len(),
        names.floats@[k].single == single && names.floats@[k].bits == bits,
        forall|j: int|
            0 <= j < k ==> !((#[trigger] names.floats@[j]).single == single && names.floats@[j].bits
                == bits),
    ensures
        names.float(single, bits) == Some(names.floats@[k].text@),
{
    lemma_float_from(names, single, bits, 0, k);
}

} // verus!
