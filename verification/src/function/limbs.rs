//! Constants given as limbs: which of them are the same constant.

use super::func::{stored_limbs, trimmed};
use super::laws::law_equal_constants_are_stored_alike;
use crate::const_value::{const_number, limbs_value};
use crate::node::ValueType;
use vstd::arithmetic::div_mod::{
    lemma_fundamental_div_mod, lemma_fundamental_div_mod_converse, lemma_mod_multiples_vanish,
};
use vstd::arithmetic::power2::{lemma2_to64, lemma_pow2_adds, pow2};
use vstd::prelude::*;

verus! {

/// What a limb counts for against the one before it.
spec fn base() -> nat {
    0x1_0000_0000_0000_0000
}

/// `base^k`.
spec fn base_power(k: nat) -> nat
    decreases k,
{
    if k == 0 {
        1
    } else {
        base() * base_power((k - 1) as nat)
    }
}

/// The limb at a place; zero past the end.
spec fn limb_at(limbs: Seq<u64>, i: int) -> u64 {
    if i < limbs.len() {
        limbs[i]
    } else {
        0
    }
}

proof fn lemma_base_power_positive(k: nat)
    ensures
        base_power(k) > 0,
    decreases k,
{
    if k > 0 {
        lemma_base_power_positive((k - 1) as nat);
        assert(base() * base_power((k - 1) as nat) > 0) by (nonlinear_arith)
            requires
                base() > 0,
                base_power((k - 1) as nat) > 0,
        ;
    }
}

/// `t` spells `limbs` up to a multiple of `base^(count - 1) * m`.
proof fn lemma_cut(limbs: Seq<u64>, t: Seq<u64>, m: nat)
    requires
        t.len() > 0,
        forall|i: int| 0 <= i < t.len() - 1 ==> #[trigger] t[i] == limb_at(limbs, i),
        t[t.len() - 1] as nat == limb_at(limbs, t.len() - 1) as nat % m,
        0 < m,
        base() % m == 0,
    ensures
        limbs_value(t) == limbs_value(limbs) % (base_power((t.len() - 1) as nat) * m),
    decreases t.len(),
{
    let first = limb_at(limbs, 0) as nat;
    let rest = if limbs.len() > 0 {
        limbs.skip(1)
    } else {
        Seq::empty()
    };
    let x = limbs_value(rest);
    assert(limbs_value(limbs) == first + base() * x) by {
        if limbs.len() == 0 {
            assert(limbs_value(rest) == 0);
        }
    }
    let u = t.skip(1);
    assert(limbs_value(t) == t[0] as nat + base() * limbs_value(u));
    if t.len() == 1 {
        assert(limbs_value(u) == 0);
        let q = base() / m;
        lemma_fundamental_div_mod(base() as int, m as int);
        assert(first + base() * x == (q * x) * m + first) by (nonlinear_arith)
            requires
                base() == m * q,
        ;
        lemma_mod_multiples_vanish((q * x) as int, first as int, m as int);
        assert((m as int) * ((q * x) as int) + first == (q * x) * m + first) by (nonlinear_arith);
        assert(base_power(0) == 1);
        assert(base_power(0) * m == m) by (nonlinear_arith)
            requires
                base_power(0) == 1,
        ;
    } else {
        let k = (t.len() - 2) as nat;
        let big = base_power(k) * m;
        assert forall|i: int| 0 <= i < u.len() - 1 implies #[trigger] u[i] == limb_at(rest, i) by {
            assert(u[i] == t[i + 1]);
        }
        assert(u[u.len() - 1] == t[t.len() - 1]);
        lemma_cut(rest, u, m);
        lemma_base_power_positive(k);
        assert(big > 0) by (nonlinear_arith)
            requires
                big == base_power(k) * m,
                base_power(k) > 0,
                m > 0,
        ;
        let q = x / big;
        let r = x % big;
        lemma_fundamental_div_mod(x as int, big as int);
        let whole = base_power((k + 1) as nat) * m;
        assert(whole == base() * big) by (nonlinear_arith)
            requires
                whole == (base() * base_power(k)) * m,
                big == base_power(k) * m,
        ;
        assert(first + base() * x == q * whole + (first + base() * r)) by (nonlinear_arith)
            requires
                x == big * q + r,
                whole == base() * big,
        ;
        assert(0 <= first + base() * r < whole) by (nonlinear_arith)
            requires
                first < base(),
                0 <= r < big,
                whole == base() * big,
        ;
        lemma_fundamental_div_mod_converse(
            (first + base() * x) as int,
            whole as int,
            q as int,
            (first + base() * r) as int,
        );
        assert(t[0] == limb_at(limbs, 0));
    }
}

/// The top limb keeps the bits its type has room for.
proof fn lemma_top_limb(x: u64)
    ensures
        x & (u64::MAX >> 63u64) == x % 0x2,
        x & (u64::MAX >> 56u64) == x % 0x100,
        x & (u64::MAX >> 48u64) == x % 0x1_0000,
        x & (u64::MAX >> 32u64) == x % 0x1_0000_0000,
        x & (u64::MAX >> 0u64) == x,
{
    assert(x & (u64::MAX >> 63u64) == x % 0x2) by (bit_vector);
    assert(x & (u64::MAX >> 56u64) == x % 0x100) by (bit_vector);
    assert(x & (u64::MAX >> 48u64) == x % 0x1_0000) by (bit_vector);
    assert(x & (u64::MAX >> 32u64) == x % 0x1_0000_0000) by (bit_vector);
    assert(x & (u64::MAX >> 0u64) == x) by (bit_vector);
}

/// How many limbs a type spans, and what the top one counts up to.
spec fn limb_count(ty: ValueType) -> nat {
    match ty {
        ValueType::I80 => 2,
        ValueType::I128 => 2,
        ValueType::I256 => 4,
        ValueType::I512 => 8,
        _ => 1,
    }
}

spec fn top_modulus(ty: ValueType) -> nat {
    match ty {
        ValueType::I1 => 0x2,
        ValueType::I8 => 0x100,
        ValueType::I16 => 0x1_0000,
        ValueType::I32 => 0x1_0000_0000,
        ValueType::I80 => 0x1_0000,
        _ => base(),
    }
}

proof fn lemma_width(ty: ValueType)
    requires
        ty.integer(),
    ensures
        base_power((limb_count(ty) - 1) as nat) * top_modulus(ty) == pow2(ty.width()),
{
    lemma2_to64();
    lemma_pow2_adds(64, 16);
    lemma_pow2_adds(64, 64);
    lemma_pow2_adds(128, 128);
    lemma_pow2_adds(256, 256);
    reveal_with_fuel(base_power, 8);
    let b = base();
    let k = (limb_count(ty) - 1) as nat;
    let p = base_power(k);
    let m = top_modulus(ty);
    assert(pow2(64) == b);
    match ty {
        ValueType::I80 => {
            assert(p * m == pow2(64) * pow2(16)) by (nonlinear_arith)
                requires
                    p == b * 1,
                    pow2(64) == b,
                    pow2(16) == m,
            ;
        },
        ValueType::I128 => {
            assert(p * m == pow2(64) * pow2(64)) by (nonlinear_arith)
                requires
                    p == b * 1,
                    pow2(64) == b,
                    m == b,
            ;
        },
        ValueType::I256 => {
            let c = pow2(128);
            assert(p * m == c * c) by (nonlinear_arith)
                requires
                    p == b * (b * (b * 1)),
                    c == b * b,
                    m == b,
            ;
        },
        ValueType::I512 => {
            let c = pow2(128);
            let d = pow2(256);
            assert(d == (b * b) * (b * b)) by (nonlinear_arith)
                requires
                    d == c * c,
                    c == b * b,
            ;
            assert(p * m == ((b * b) * (b * b)) * ((b * b) * (b * b))) by (nonlinear_arith)
                requires
                    p == b * (b * (b * (b * (b * (b * (b * 1)))))),
                    m == b,
            ;
        },
        _ => {
            assert(p * m == m) by (nonlinear_arith)
                requires
                    p == 1,
            ;
        },
    }
}

/// What the modulus of the top limb is for: it divides the base, and cutting
/// the limb down is taking the remainder.
proof fn lemma_modulus(ty: ValueType, x: u64, top: u64)
    requires
        ty.integer(),
        top == x & (u64::MAX >> ((limb_count(ty) * 64 - ty.width()) as u64)),
    ensures
        base() % top_modulus(ty) == 0,
        top as nat == x as nat % top_modulus(ty),
{
    let m = top_modulus(ty);
    lemma_top_limb(x);
    match ty {
        ValueType::I1 => {
            assert(base() % m == 0) by (nonlinear_arith)
                requires
                    base() == 0x1_0000_0000_0000_0000nat,
                    m == 0x2nat,
            ;
            assert(x as nat % m == (x % 0x2) as nat) by (nonlinear_arith)
                requires
                    m == 0x2nat,
            ;
        },
        ValueType::I8 => {
            assert(base() % m == 0) by (nonlinear_arith)
                requires
                    base() == 0x1_0000_0000_0000_0000nat,
                    m == 0x100nat,
            ;
            assert(x as nat % m == (x % 0x100) as nat) by (nonlinear_arith)
                requires
                    m == 0x100nat,
            ;
        },
        ValueType::I16 => {
            assert(base() % m == 0) by (nonlinear_arith)
                requires
                    base() == 0x1_0000_0000_0000_0000nat,
                    m == 0x1_0000nat,
            ;
            assert(x as nat % m == (x % 0x1_0000) as nat) by (nonlinear_arith)
                requires
                    m == 0x1_0000nat,
            ;
        },
        ValueType::I32 => {
            assert(base() % m == 0) by (nonlinear_arith)
                requires
                    base() == 0x1_0000_0000_0000_0000nat,
                    m == 0x1_0000_0000nat,
            ;
            assert(x as nat % m == (x % 0x1_0000_0000) as nat) by (nonlinear_arith)
                requires
                    m == 0x1_0000_0000nat,
            ;
        },
        ValueType::I80 => {
            assert(base() % m == 0) by (nonlinear_arith)
                requires
                    base() == 0x1_0000_0000_0000_0000nat,
                    m == 0x1_0000nat,
            ;
            assert(x as nat % m == (x % 0x1_0000) as nat) by (nonlinear_arith)
                requires
                    m == 0x1_0000nat,
            ;
        },
        _ => {
            assert(base() % m == 0) by (nonlinear_arith)
                requires
                    base() == m,
                    m > 0,
            ;
            assert(x as nat % m == x as nat) by (nonlinear_arith)
                requires
                    m == 0x1_0000_0000_0000_0000nat,
                    x <= 0xffff_ffff_ffff_ffff,
            ;
        },
    }
}

/// Cutting limbs down to a type keeps the number modulo its width.
pub proof fn law_trimmed_modulo_width(limbs: Seq<u64>, ty: ValueType)
    requires
        ty.integer(),
    ensures
        limbs_value(trimmed(limbs, ty)) == limbs_value(limbs) % pow2(ty.width()),
{
    let t = trimmed(limbs, ty);
    let m = top_modulus(ty);
    lemma_width(ty);
    assert(t.len() == limb_count(ty));
    let x = limb_at(limbs, t.len() - 1);
    let top = t[t.len() - 1];
    lemma_modulus(ty, x, top);
    lemma_cut(limbs, t, m);
}

proof fn lemma_masks(x: u128)
    ensures
        x <= 0x1 ==> x & 0x1 == x,
        x <= 0xff ==> x & 0xff == x,
        x <= 0xffff ==> x & 0xffff == x,
        x <= 0xffff_ffff ==> x & 0xffff_ffff == x,
        x <= 0xffff_ffff_ffff_ffff ==> x & 0xffff_ffff_ffff_ffff == x,
        x <= 0xffff_ffff_ffff_ffff_ffff ==> x & 0xffff_ffff_ffff_ffff_ffff == x,
        x & 0xffff_ffff_ffff_ffff_ffff_ffff_ffff_ffff == x,
{
    assert(x <= 0x1 ==> x & 0x1 == x) by (bit_vector);
    assert(x <= 0xff ==> x & 0xff == x) by (bit_vector);
    assert(x <= 0xffff ==> x & 0xffff == x) by (bit_vector);
    assert(x <= 0xffff_ffff ==> x & 0xffff_ffff == x) by (bit_vector);
    assert(x <= 0xffff_ffff_ffff_ffff ==> x & 0xffff_ffff_ffff_ffff == x) by (bit_vector);
    assert(x <= 0xffff_ffff_ffff_ffff_ffff ==> x & 0xffff_ffff_ffff_ffff_ffff == x)
        by (bit_vector);
    assert(x & 0xffff_ffff_ffff_ffff_ffff_ffff_ffff_ffff == x) by (bit_vector);
}

/// What is stored is the number modulo the width of its type.
pub(crate) proof fn lemma_stored_number(limbs: Seq<u64>, ty: ValueType)
    requires
        ty.integer(),
    ensures
        const_number(stored_limbs(limbs, ty)) == limbs_value(limbs) % pow2(ty.width()),
{
    law_trimmed_modulo_width(limbs, ty);
    lemma2_to64();
    lemma_pow2_adds(64, 16);
    let number = limbs_value(trimmed(limbs, ty));
    assert(pow2(ty.width()) > 0) by {
        vstd::arithmetic::power2::lemma_pow2_pos(ty.width());
    }
    assert(number < pow2(ty.width())) by {
        vstd::arithmetic::div_mod::lemma_mod_bound(
            limbs_value(limbs) as int,
            pow2(ty.width()) as int,
        );
    }
    if number <= u128::MAX {
        lemma_masks(number as u128);
    }
}

/// Two spellings of constants are stored alike, and so get one id, exactly when
/// they are equal modulo the width of their type.
pub proof fn law_one_id_modulo_width(a: Seq<u64>, b: Seq<u64>, ty: ValueType)
    requires
        ty.integer(),
    ensures
        stored_limbs(a, ty) == stored_limbs(b, ty) <==> limbs_value(a) % pow2(ty.width())
            == limbs_value(b) % pow2(ty.width()),
{
    lemma_stored_number(a, ty);
    lemma_stored_number(b, ty);
    if limbs_value(a) % pow2(ty.width()) == limbs_value(b) % pow2(ty.width()) {
        law_trimmed_modulo_width(a, ty);
        law_trimmed_modulo_width(b, ty);
        law_equal_constants_are_stored_alike(a, b, ty);
    }
}

} // verus!
