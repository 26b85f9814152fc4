//! Integer constants of any width.

use crate::interner::Same;
use vstd::prelude::*;

verus! {

/// An integer constant: its bits, or little-endian limbs where it is wider.
#[derive(Debug)]
pub enum ConstValue {
    Bits(u128),
    Wide(Vec<u64>),
}

/// What a constant holds.
pub enum ConstModel {
    Bits(u128),
    Wide(Seq<u64>),
}

impl View for ConstValue {
    type V = ConstModel;

    open spec fn view(&self) -> ConstModel {
        match self {
            ConstValue::Bits(v) => ConstModel::Bits(*v),
            ConstValue::Wide(limbs) => ConstModel::Wide(limbs@),
        }
    }
}

/// The number little-endian limbs spell.
pub open spec fn limbs_value(limbs: Seq<u64>) -> nat
    decreases limbs.len(),
{
    if limbs.len() == 0 {
        0
    } else {
        limbs[0] as nat + 0x1_0000_0000_0000_0000nat * limbs_value(limbs.skip(1))
    }
}

/// The number a constant is.
pub open spec fn const_number(c: ConstModel) -> nat {
    match c {
        ConstModel::Bits(v) => v as nat,
        ConstModel::Wide(limbs) => limbs_value(limbs),
    }
}

/// Whether the limbs past the first two are zero.
pub open spec fn fits_two_limbs(limbs: Seq<u64>) -> bool {
    forall|i: int| 2 <= i < limbs.len() ==> #[trigger] limbs[i] == 0
}

proof fn lemma_zero_limbs(limbs: Seq<u64>)
    requires
        forall|i: int| 0 <= i < limbs.len() ==> #[trigger] limbs[i] == 0,
    ensures
        limbs_value(limbs) == 0,
    decreases limbs.len(),
{
    if limbs.len() > 0 {
        let rest = limbs.skip(1);
        assert forall|i: int| 0 <= i < rest.len() implies #[trigger] rest[i] == 0 by {
            assert(rest[i] == limbs[i + 1]);
        }
        lemma_zero_limbs(rest);
    }
}

proof fn lemma_limbs_zero_inverse(limbs: Seq<u64>)
    requires
        limbs_value(limbs) == 0,
    ensures
        forall|i: int| 0 <= i < limbs.len() ==> #[trigger] limbs[i] == 0,
    decreases limbs.len(),
{
    if limbs.len() > 0 {
        let rest = limbs.skip(1);
        assert(limbs[0] == 0 && limbs_value(rest) == 0) by (nonlinear_arith)
            requires
                limbs[0] as nat + 0x1_0000_0000_0000_0000nat * limbs_value(rest) == 0,
        ;
        lemma_limbs_zero_inverse(rest);
        assert forall|i: int| 0 <= i < limbs.len() implies #[trigger] limbs[i] == 0 by {
            if i > 0 {
                assert(rest[i - 1] == limbs[i]);
            }
        }
    }
}

/// A constant fits 128 bits exactly when its limbs past the second are zero.
pub proof fn lemma_two_limbs(limbs: Seq<u64>)
    ensures
        fits_two_limbs(limbs) <==> limbs_value(limbs) <= u128::MAX,
        fits_two_limbs(limbs) ==> limbs_value(limbs) == (if limbs.len() > 0 {
            limbs[0] as nat
        } else {
            0
        }) + 0x1_0000_0000_0000_0000nat * (if limbs.len() > 1 {
            limbs[1] as nat
        } else {
            0
        }),
{
    reveal_with_fuel(limbs_value, 3);
    if limbs.len() >= 2 {
        let rest = limbs.skip(1);
        let tail = rest.skip(1);
        assert(rest[0] == limbs[1]);
        assert(tail =~= limbs.skip(2));
        assert(limbs_value(limbs) == limbs[0] as nat + 0x1_0000_0000_0000_0000nat * (limbs[1] as nat
            + 0x1_0000_0000_0000_0000nat * limbs_value(tail)));
        if fits_two_limbs(limbs) {
            assert forall|i: int| 0 <= i < tail.len() implies #[trigger] tail[i] == 0 by {
                assert(tail[i] == limbs[i + 2]);
            }
            lemma_zero_limbs(tail);
        } else {
            if limbs_value(tail) == 0 {
                lemma_limbs_zero_inverse(tail);
                assert forall|i: int| 2 <= i < limbs.len() implies #[trigger] limbs[i] == 0 by {
                    assert(tail[i - 2] == limbs[i]);
                }
                assert(false);
            }
        }
    } else if limbs.len() == 1 {
        let rest = limbs.skip(1);
        assert(rest.len() == 0);
        assert(limbs_value(rest) == 0);
    }
}

impl Same for ConstValue {
    fn same(&self, other: &Self) -> (r: bool) {
        match (self, other) {
            (ConstValue::Bits(a), ConstValue::Bits(b)) => *a == *b,
            (ConstValue::Wide(a), ConstValue::Wide(b)) => {
                if a.len() != b.len() {
                    assert(a@ != b@);
                    return false;
                }
                let mut i: usize = 0;
                while i < a.len()
                    invariant
                        self@ == ConstModel::Wide(a@),
                        other@ == ConstModel::Wide(b@),
                        a.len() == b.len(),
                        i <= a.len(),
                        forall|k: int| 0 <= k < i ==> a@[k] == b@[k],
                    decreases a.len() - i,
                {
                    if a[i] != b[i] {
                        assert(a@ != b@);
                        return false;
                    }
                    i += 1;
                }
                assert(a@ =~= b@);
                true
            },
            _ => false,
        }
    }

    fn copy_of(&self) -> (r: Self) {
        self.duplicate()
    }
}

impl ConstValue {
    /// The number, where 128 bits hold it.
    pub fn fits_u128(&self) -> (r: Option<u128>)
        ensures
            match r {
                Some(v) => v == const_number(self@),
                None => const_number(self@) > u128::MAX,
            },
    {
        match self {
            ConstValue::Bits(v) => Some(*v),
            ConstValue::Wide(limbs) => {
                proof {
                    lemma_two_limbs(limbs@);
                }
                let mut i: usize = 2;
                while i < limbs.len()
                    invariant
                        self@ == ConstModel::Wide(limbs@),
                        fits_two_limbs(limbs@) <==> limbs_value(limbs@) <= u128::MAX,
                        i >= 2,
                        forall|k: int| 2 <= k < i && k < limbs@.len() ==> #[trigger] limbs@[k] == 0,
                    decreases limbs.len() - i,
                {
                    if limbs[i] != 0 {
                        assert(!fits_two_limbs(limbs@));
                        return None;
                    }
                    i += 1;
                }
                assert(fits_two_limbs(limbs@));
                let low: u128 = if limbs.len() > 0 {
                    limbs[0] as u128
                } else {
                    0
                };
                let high: u128 = if limbs.len() > 1 {
                    limbs[1] as u128
                } else {
                    0
                };
                Some(low + 0x1_0000_0000_0000_0000u128 * high)
            },
        }
    }

    /// An independent copy.
    pub fn duplicate(&self) -> (r: ConstValue)
        ensures
            r@ == self@,
    {
        match self {
            ConstValue::Bits(v) => ConstValue::Bits(*v),
            ConstValue::Wide(limbs) => {
                let mut copy: Vec<u64> = Vec::new();
                let mut i: usize = 0;
                while i < limbs.len()
                    invariant
                        i <= limbs.len(),
                        copy@ == limbs@.take(i as int),
                    decreases limbs.len() - i,
                {
                    copy.push(limbs[i]);
                    i += 1;
                    assert(copy@ =~= limbs@.take(i as int));
                }
                assert(copy@ =~= limbs@);
                ConstValue::Wide(copy)
            },
        }
    }
}

} // verus!
