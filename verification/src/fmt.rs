//! Numbers as text.

use vstd::prelude::*;
use vstd::string::StringExecFns;

verus! {

/// The digit for a number below sixteen.
pub open spec fn digit(d: nat) -> Seq<char> {
    if d == 0 {
        "0"@
    } else if d == 1 {
        "1"@
    } else if d == 2 {
        "2"@
    } else if d == 3 {
        "3"@
    } else if d == 4 {
        "4"@
    } else if d == 5 {
        "5"@
    } else if d == 6 {
        "6"@
    } else if d == 7 {
        "7"@
    } else if d == 8 {
        "8"@
    } else if d == 9 {
        "9"@
    } else if d == 10 {
        "a"@
    } else if d == 11 {
        "b"@
    } else if d == 12 {
        "c"@
    } else if d == 13 {
        "d"@
    } else if d == 14 {
        "e"@
    } else {
        "f"@
    }
}

/// A number in decimal.
pub open spec fn dec(n: nat) -> Seq<char>
    decreases n,
{
    if n < 10 {
        digit(n)
    } else {
        dec(n / 10) + digit(n % 10)
    }
}

/// A number in hexadecimal, without leading zeros.
pub open spec fn hex(n: nat) -> Seq<char>
    decreases n,
{
    if n < 16 {
        digit(n)
    } else {
        hex(n / 16) + digit(n % 16)
    }
}

/// The last `width` hexadecimal digits of a number.
pub open spec fn padded_hex(n: nat, width: nat) -> Seq<char>
    decreases width,
{
    if width == 0 {
        Seq::empty()
    } else {
        padded_hex(n / 16, (width - 1) as nat) + digit(n % 16)
    }
}

/// A number in hexadecimal with its prefix.
pub open spec fn hex0x(n: nat) -> Seq<char> {
    "0x"@ + hex(n)
}

/// A signed number in decimal.
pub open spec fn signed_dec(n: int) -> Seq<char> {
    if n < 0 {
        "-"@ + dec((-n) as nat)
    } else {
        dec(n as nat)
    }
}

/// A truth value as text.
pub open spec fn bool_text(b: bool) -> Seq<char> {
    if b {
        "true"@
    } else {
        "false"@
    }
}

pub fn digit_str(d: u8) -> (r: &'static str)
    requires
        d < 16,
    ensures
        r@ == digit(d as nat),
{
    match d {
        0 => "0",
        1 => "1",
        2 => "2",
        3 => "3",
        4 => "4",
        5 => "5",
        6 => "6",
        7 => "7",
        8 => "8",
        9 => "9",
        10 => "a",
        11 => "b",
        12 => "c",
        13 => "d",
        14 => "e",
        _ => "f",
    }
}

/// Appends a number in decimal.
pub fn push_dec(out: &mut String, n: u128)
    ensures
        final(out)@ == old(out)@ + dec(n as nat),
    decreases n,
{
    if n < 10 {
        out.append(digit_str(n as u8));
    } else {
        let ghost start = out@;
        push_dec(out, n / 10);
        out.append(digit_str((n % 10) as u8));
        assert(out@ =~= start + dec(n as nat));
    }
}

/// Appends a number in hexadecimal.
pub fn push_hex(out: &mut String, n: u128)
    ensures
        final(out)@ == old(out)@ + hex(n as nat),
    decreases n,
{
    if n < 16 {
        out.append(digit_str(n as u8));
    } else {
        let ghost start = out@;
        push_hex(out, n / 16);
        out.append(digit_str((n % 16) as u8));
        assert(out@ =~= start + hex(n as nat));
    }
}

/// Appends a number in hexadecimal with its prefix.
pub fn push_hex0x(out: &mut String, n: u128)
    ensures
        final(out)@ == old(out)@ + hex0x(n as nat),
{
    let ghost start = out@;
    out.append("0x");
    push_hex(out, n);
    assert(out@ =~= start + hex0x(n as nat));
}

/// Appends the last `width` hexadecimal digits of a number.
pub fn push_padded_hex(out: &mut String, n: u64, width: u32)
    ensures
        final(out)@ == old(out)@ + padded_hex(n as nat, width as nat),
    decreases width,
{
    if width > 0 {
        let ghost start = out@;
        push_padded_hex(out, n / 16, width - 1);
        out.append(digit_str((n % 16) as u8));
        assert(out@ =~= start + padded_hex(n as nat, width as nat));
    } else {
        assert(out@ =~= out@ + padded_hex(n as nat, 0));
    }
}

/// What a decimal digit is, as a character.
pub open spec fn is_decimal(c: char) -> bool {
    c == '0' || c == '1' || c == '2' || c == '3' || c == '4' || c == '5' || c == '6' || c == '7'
        || c == '8' || c == '9'
}

/// A digit is one character, and tells its number.
proof fn lemma_digit(a: nat, b: nat)
    requires
        a < 10,
        b < 10,
    ensures
        digit(a).len() == 1,
        is_decimal(digit(a)[0]),
        digit(a) == digit(b) ==> a == b,
{
    reveal_strlit("0");
    reveal_strlit("1");
    reveal_strlit("2");
    reveal_strlit("3");
    reveal_strlit("4");
    reveal_strlit("5");
    reveal_strlit("6");
    reveal_strlit("7");
    reveal_strlit("8");
    reveal_strlit("9");
    if digit(a) == digit(b) {
        assert(digit(a)[0] == digit(b)[0]);
    }
}

/// A number has at least one digit, and nothing but digits.
pub proof fn lemma_dec_nonempty(n: nat)
    ensures
        dec(n).len() > 0,
        forall|i: int| 0 <= i < dec(n).len() ==> is_decimal(#[trigger] dec(n)[i]),
    decreases n,
{
    lemma_digit(n % 10, 0);
    if n >= 10 {
        lemma_dec_nonempty(n / 10);
    }
}

/// A number in decimal tells the number.
pub proof fn law_dec_identifies_number(a: nat, b: nat)
    requires
        dec(a) == dec(b),
    ensures
        a == b,
    decreases a,
{
    lemma_dec_nonempty(a / 10);
    lemma_dec_nonempty(b / 10);
    lemma_digit(a % 10, b % 10);
    lemma_digit(b % 10, a % 10);
    if a < 10 && b < 10 {
    } else if a < 10 || b < 10 {
        assert(dec(a).len() != dec(b).len());
    } else {
        assert(dec(a).drop_last() =~= dec(a / 10));
        assert(dec(b).drop_last() =~= dec(b / 10));
        law_dec_identifies_number(a / 10, b / 10);
        let x = dec(a).subrange(dec(a).len() - 1, dec(a).len() as int);
        assert(x =~= digit(a % 10));
        assert(x =~= digit(b % 10));
    }
}

/// Appends a signed number in decimal.
pub fn push_signed(out: &mut String, n: i64)
    ensures
        final(out)@ == old(out)@ + signed_dec(n as int),
{
    let ghost start = out@;
    if n < 0 {
        out.append("-");
        push_dec(out, (-(n as i128)) as u128);
        assert(out@ =~= start + signed_dec(n as int));
    } else {
        push_dec(out, n as u128);
    }
}

/// Appends a truth value.
pub fn push_bool(out: &mut String, b: bool)
    ensures
        final(out)@ == old(out)@ + bool_text(b),
{
    if b {
        out.append("true");
    } else {
        out.append("false");
    }
}

/// `16^w`.
pub open spec fn pow16(w: nat) -> nat
    decreases w,
{
    if w == 0 {
        1
    } else {
        16 * pow16((w - 1) as nat)
    }
}

/// The digits of a number are those of its high part and then those of its low
/// part, at full width.
pub proof fn lemma_hex_concat(a: nat, b: nat, w: nat)
    requires
        a > 0,
        b < pow16(w),
    ensures
        hex(a * pow16(w) + b) == hex(a) + padded_hex(b, w),
    decreases w,
{
    if w == 0 {
        assert(a * pow16(0) + b == a) by (nonlinear_arith)
            requires
                pow16(0) == 1,
                b < 1,
        ;
        assert(hex(a) + padded_hex(b, 0) =~= hex(a));
    } else {
        let p = pow16((w - 1) as nat);
        let n = a * pow16(w) + b;
        assert(pow16(w) == 16 * p);
        assert(p >= 1) by {
            lemma_pow16_positive((w - 1) as nat);
        }
        assert(n / 16 == a * p + b / 16 && n % 16 == b % 16 && n >= 16) by (nonlinear_arith)
            requires
                n == a * (16 * p) + b,
                a > 0,
                p >= 1,
        ;
        assert(b / 16 < p) by (nonlinear_arith)
            requires
                b < 16 * p,
        ;
        lemma_hex_concat(a, b / 16, (w - 1) as nat);
        assert(hex(n) == hex(n / 16) + digit(n % 16));
        assert(hex(n) =~= hex(a) + padded_hex(b, w));
    }
}

pub proof fn lemma_pow16_positive(w: nat)
    ensures
        pow16(w) >= 1,
    decreases w,
{
    if w > 0 {
        lemma_pow16_positive((w - 1) as nat);
    }
}

/// A limb has sixteen digits.
pub proof fn lemma_pow16_limb()
    ensures
        pow16(16) == 0x1_0000_0000_0000_0000,
{
    reveal_with_fuel(pow16, 17);
}

} // verus!
