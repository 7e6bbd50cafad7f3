//! Prime field elements.

use vstd::prelude::*;
use vstd::arithmetic::div_mod::{lemma_fundamental_div_mod_converse, lemma_small_mod};

verus! {

/// Two to the 128th power, the weight of the upper limb of a `FieldPrime`.
pub open spec fn limb_base() -> int {
    0x1_0000_0000_0000_0000_0000_0000_0000_0000int
}

/// Upper limb of the field's prime.
pub const PRIME_HI: u128 = 0x30644e72e131a029b85045b68181585du128;

/// Lower limb of the field's prime.
pub const PRIME_LO: u128 = 0x2833e84879b9709143e1f593f0000001u128;

/// The prime `p` of `FieldPrime`:
/// 21888242871839275222246405745257275088548364400416034343698204186575808495617.
pub open spec fn prime() -> int {
    PRIME_HI as int * limb_base() + PRIME_LO as int
}

/// The operations that constraint generation needs of a field.
///
/// Every element stands for an integer in `0 .. order()`; addition is
/// addition of those integers modulo `order()`.
pub trait Field: Sized {
    /// The number of elements of the field.
    spec fn order() -> int;

    /// The integer in `0 .. order()` that the element stands for.
    spec fn value(&self) -> int;

    /// The order exceeds one.
    proof fn lemma_order_exceeds_one()
        ensures
            1 < Self::order(),
    ;

    /// The order exceeds one, and every element's integer lies below it.
    proof fn lemma_value_bounds(x: &Self)
        ensures
            1 < Self::order(),
            0 <= x.value() < Self::order(),
    ;

    /// The additive identity.
    fn zero() -> (r: Self)
        ensures
            r.value() == 0,
    ;

    /// The multiplicative identity.
    fn one() -> (r: Self)
        ensures
            r.value() == 1,
    ;

    /// A copy of the element.
    fn duplicate(&self) -> (r: Self)
        ensures
            r == *self,
    ;

    /// The sum of two elements.
    fn add(&self, other: &Self) -> (r: Self)
        ensures
            r.value() == (self.value() + other.value()) % Self::order(),
    ;
}

/// An element of the prime field of order `prime()`, held as two 128-bit
/// limbs of its canonical representative.
#[derive(Clone, Copy, Debug, PartialEq, Eq, Structural)]
pub struct FieldPrime {
    lo: u128,
    hi: u128,
}

impl FieldPrime {
    /// The integer that the limbs spell out.
    pub closed spec fn raw(self) -> int {
        self.hi as int * limb_base() + self.lo as int
    }

    /// The limbs spell out the canonical representative, below the prime.
    /// Every element that code holds is canonical (`use_type_invariant`).
    #[verifier::type_invariant]
    pub closed spec fn canonical(self) -> bool {
        self.raw() < prime()
    }

    /// Two canonical elements that stand for the same integer are equal: an
    /// element is determined by its value.
    pub proof fn lemma_value_determines(a: FieldPrime, b: FieldPrime)
        requires
            a.canonical(),
            b.canonical(),
            a.value() == b.value(),
        ensures
            a == b,
    {
        lemma_small_mod(a.raw() as nat, prime() as nat);
        lemma_small_mod(b.raw() as nat, prime() as nat);
        assert(a.lo == b.lo && a.hi == b.hi);
    }

    /// The element that the integer `num` stands for: `num` modulo the prime,
    /// negative numbers wrapping around.
    pub fn from(num: i32) -> (r: FieldPrime)
        ensures
            r.value() == (num as int) % prime(),
    {
        if num >= 0 {
            let r = FieldPrime { lo: num as u128, hi: 0 };
            proof {
                lemma_small_mod(num as nat, prime() as nat);
            }
            r
        } else {
            let k: u128 = (0i64 - num as i64) as u128;
            let r = FieldPrime { lo: PRIME_LO - k, hi: PRIME_HI };
            proof {
                lemma_fundamental_div_mod_converse(num as int, prime(), -1, r.raw());
                lemma_small_mod(r.raw() as nat, prime() as nat);
            }
            r
        }
    }
}

impl Field for FieldPrime {
    open spec fn order() -> int {
        prime()
    }

    closed spec fn value(&self) -> int {
        self.raw() % prime()
    }

    proof fn lemma_order_exceeds_one() {
    }

    proof fn lemma_value_bounds(x: &Self) {
    }

    fn zero() -> (r: Self) {
        let r = FieldPrime { lo: 0, hi: 0 };
        proof {
            lemma_small_mod(0, prime() as nat);
        }
        r
    }

    fn one() -> (r: Self) {
        let r = FieldPrime { lo: 1, hi: 0 };
        proof {
            lemma_small_mod(1, prime() as nat);
        }
        r
    }

    fn duplicate(&self) -> (r: Self) {
        *self
    }

    fn add(&self, other: &Self) -> (r: Self) {
        proof {
            use_type_invariant(self);
            use_type_invariant(other);
            lemma_small_mod(self.raw() as nat, prime() as nat);
            lemma_small_mod(other.raw() as nat, prime() as nat);
        }
        let (lo, carry) = if self.lo <= u128::MAX - other.lo {
            (self.lo + other.lo, 0u128)
        } else {
            (self.lo - (u128::MAX - other.lo) - 1, 1u128)
        };
        let hi = self.hi + other.hi + carry;
        let ghost sum: int = self.raw() + other.raw();
        assert(hi as int * limb_base() + lo as int == sum);
        if hi > PRIME_HI || (hi == PRIME_HI && lo >= PRIME_LO) {
            let (lo2, borrow) = if lo >= PRIME_LO {
                (lo - PRIME_LO, 0u128)
            } else {
                (lo + (u128::MAX - PRIME_LO) + 1, 1u128)
            };
            let r = FieldPrime { lo: lo2, hi: hi - PRIME_HI - borrow };
            proof {
                assert(r.raw() == sum - prime());
                lemma_fundamental_div_mod_converse(sum, prime(), 1, r.raw());
                lemma_small_mod(r.raw() as nat, prime() as nat);
            }
            r
        } else {
            let r = FieldPrime { lo, hi };
            proof {
                lemma_small_mod(sum as nat, prime() as nat);
            }
            r
        }
    }
}

} // verus!
