//! Numbers are read back from their digits.

use crate::fmt::{bool_text, dec, digit, hex, hex0x, padded_hex, pow16, signed_dec};
use vstd::prelude::*;

verus! {

/// What a digit counts: the decimal digits by their place after `0`, the
/// others by their place after `a`, which is ten.
pub open spec fn worth(c: char) -> int {
    if c as u32 <= 57 {
        c as u32 - 48
    } else {
        c as u32 - 97 + 10
    }
}

/// The number that digits spell, the highest first.
pub open spec fn read(s: Seq<char>, base: nat) -> int
    decreases s.len(),
{
    if s.len() == 0 {
        0
    } else {
        read(s.drop_last(), base) * base + worth(s.last())
    }
}

proof fn lemma_digit_worth(d: nat)
    requires
        d < 16,
    ensures
        digit(d).len() == 1,
        worth(digit(d)[0]) == d,
        d < 10 ==> 48 <= digit(d)[0] as u32 <= 57,
        d >= 10 ==> 97 <= digit(d)[0] as u32 <= 102,
{
    reveal_strlit("0");
    reveal_strlit("1");
    reveal_strlit("2");
    reveal_strlit("3");
    reveal_strlit("4");
    reveal_strlit("5");
    reveal_strlit("6");
    reveal_strlit("7");
    reveal_strlit("8");
    reveal_strlit("9");
    reveal_strlit("a");
    reveal_strlit("b");
    reveal_strlit("c");
    reveal_strlit("d");
    reveal_strlit("e");
    reveal_strlit("f");
}

proof fn lemma_read_digit(front: Seq<char>, d: nat, base: nat)
    requires
        d < 16,
    ensures
        read(front + digit(d), base) == read(front, base) * base + d,
{
    lemma_digit_worth(d);
    let s = front + digit(d);
    assert(s.drop_last() =~= front);
    assert(s.last() == digit(d)[0]);
}

/// A number in decimal reads back as the number, has decimal digits only, and
/// no zero before them.
pub proof fn law_decimal_reads_back(n: nat)
    ensures
        read(dec(n), 10) == n,
        dec(n).len() > 0,
        forall|i: int| 0 <= i < dec(n).len() ==> 48 <= (#[trigger] dec(n)[i]) as u32 <= 57,
        n > 0 ==> dec(n)[0] != '0',
    decreases n,
{
    lemma_digit_worth(n % 10);
    if n < 10 {
        assert(Seq::<char>::empty() + digit(n) =~= digit(n));
        lemma_read_digit(Seq::empty(), n, 10);
    } else {
        law_decimal_reads_back(n / 10);
        lemma_read_digit(dec(n / 10), n % 10, 10);
        assert((n / 10) * 10 + n % 10 == n) by (nonlinear_arith);
    }
}

/// A number in hexadecimal reads back as the number, and has no zero before it.
pub proof fn law_hexadecimal_reads_back(n: nat)
    ensures
        read(hex(n), 16) == n,
        hex(n).len() > 0,
        n > 0 ==> hex(n)[0] != '0',
        hex0x(n).len() == hex(n).len() + 2,
        hex0x(n)[0] == '0',
        hex0x(n)[1] == 'x',
        hex0x(n).skip(2) == hex(n),
    decreases n,
{
    reveal_strlit("0x");
    assert(hex0x(n).skip(2) =~= hex(n));
    lemma_digit_worth(n % 16);
    if n < 16 {
        assert(Seq::<char>::empty() + digit(n) =~= digit(n));
        lemma_read_digit(Seq::empty(), n, 16);
    } else {
        law_hexadecimal_reads_back(n / 16);
        lemma_read_digit(hex(n / 16), n % 16, 16);
        assert((n / 16) * 16 + n % 16 == n) by (nonlinear_arith);
    }
}

/// Padded to a width, a number that fits has that many digits and reads back.
pub proof fn law_padded_hexadecimal_reads_back(n: nat, width: nat)
    requires
        n < pow16(width),
    ensures
        padded_hex(n, width).len() == width,
        read(padded_hex(n, width), 16) == n,
    decreases width,
{
    if width > 0 {
        let w = (width - 1) as nat;
        assert(n / 16 < pow16(w)) by (nonlinear_arith)
            requires
                n < 16 * pow16(w),
        ;
        law_padded_hexadecimal_reads_back(n / 16, w);
        lemma_digit_worth(n % 16);
        lemma_read_digit(padded_hex(n / 16, w), n % 16, 16);
        assert((n / 16) * 16 + n % 16 == n) by (nonlinear_arith);
    }
}

/// A signed number is written as its size, after a minus sign if it is less
/// than zero.
pub proof fn law_signed_decimal(n: int)
    ensures
        n >= 0 ==> read(signed_dec(n), 10) == n && signed_dec(n)[0] != '-',
        n < 0 ==> signed_dec(n)[0] == '-' && read(signed_dec(n).skip(1), 10) == -n,
        bool_text(true) == "true"@,
        bool_text(false) == "false"@,
{
    reveal_strlit("-");
    if n >= 0 {
        law_decimal_reads_back(n as nat);
    } else {
        law_decimal_reads_back((-n) as nat);
        assert(signed_dec(n).skip(1) =~= dec((-n) as nat));
    }
}

} // verus!
