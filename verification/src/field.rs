//! The Goldilocks prime field: integers modulo `2^64 - 2^32 + 1`.
//!
//! A field element is kept as its canonical representative, so equality of
//! elements is equality of representatives. Contracts speak of elements through
//! their view, a mathematical integer in `[0, ORDER)`, and of the operations
//! through `fadd`, `fsub`, `fmul` and `fneg` on integers.

use vstd::arithmetic::div_mod::*;
use vstd::prelude::*;

verus! {

/// The order of the field, `2^64 - 2^32 + 1`.
pub const ORDER: u64 = 0xFFFF_FFFF_0000_0001;

/// The order of the field as a mathematical integer.
pub open spec fn order() -> int {
    0xFFFF_FFFF_0000_0001
}

/// Sum of two integers in the field.
pub open spec fn fadd(a: int, b: int) -> int {
    (a + b) % order()
}

/// Difference of two integers in the field.
pub open spec fn fsub(a: int, b: int) -> int {
    (a - b) % order()
}

/// Product of two integers in the field.
pub open spec fn fmul(a: int, b: int) -> int {
    (a * b) % order()
}

/// Additive inverse of an integer in the field.
pub open spec fn fneg(a: int) -> int {
    (-a) % order()
}

/// Two integers name the same field element.
pub open spec fn congruent(a: int, b: int) -> bool {
    a % order() == b % order()
}

/// An element of the Goldilocks field, kept in canonical form.
#[derive(Clone, Copy, Debug, PartialEq, Eq, Structural)]
pub struct Felt {
    value: u64,
}

impl Felt {
    #[verifier::type_invariant]
    spec fn canonical(self) -> bool {
        self.value < ORDER
    }

    /// The canonical representative of the element.
    pub closed spec fn view(self) -> int {
        self.value as int
    }

    /// The element that `x` names, whether or not `x` is below the order.
    pub fn from_noncanonical_u64(x: u64) -> (r: Felt)
        ensures
            r@ == x as int % order(),
    {
        Felt { value: x % ORDER }
    }

    /// The element with representative `x`.
    pub fn from_canonical_u32(x: u32) -> (r: Felt)
        ensures
            r@ == x as int,
    {
        Felt { value: x as u64 }
    }

    /// The element with representative `x`.
    pub fn from_canonical_u16(x: u16) -> (r: Felt)
        ensures
            r@ == x as int,
    {
        Felt { value: x as u64 }
    }

    /// The element with representative `x`.
    pub fn from_canonical_u8(x: u8) -> (r: Felt)
        ensures
            r@ == x as int,
    {
        Felt { value: x as u64 }
    }

    /// The additive identity.
    pub fn zero() -> (r: Felt)
        ensures
            r@ == 0,
    {
        Felt { value: 0 }
    }

    /// The multiplicative identity.
    pub fn one() -> (r: Felt)
        ensures
            r@ == 1,
    {
        Felt { value: 1 }
    }

    /// The canonical representative, which is below the order.
    pub fn as_canonical_u64(&self) -> (r: u64)
        ensures
            r as int == self@,
            r < ORDER,
    {
        proof {
            use_type_invariant(self);
        }
        self.value
    }

    /// Whether the element is the additive identity.
    pub fn is_zero(&self) -> (r: bool)
        ensures
            r == (self@ == 0),
    {
        self.value == 0
    }

    /// Field addition.
    pub fn add(self, rhs: Felt) -> (r: Felt)
        ensures
            r@ == fadd(self@, rhs@),
    {
        proof {
            use_type_invariant(&self);
            use_type_invariant(&rhs);
        }
        let s: u128 = self.value as u128 + rhs.value as u128;
        let m: u128 = s % (ORDER as u128);
        Felt { value: m as u64 }
    }

    /// Field subtraction.
    pub fn sub(self, rhs: Felt) -> (r: Felt)
        ensures
            r@ == fsub(self@, rhs@),
    {
        proof {
            use_type_invariant(&self);
            use_type_invariant(&rhs);
        }
        let s: u128 = self.value as u128 + (ORDER - rhs.value) as u128;
        let m: u128 = s % (ORDER as u128);
        proof {
            let a = self.value as int;
            let b = rhs.value as int;
            lemma_mod_add_multiples_vanish(a - b, order());
        }
        Felt { value: m as u64 }
    }

    /// Field multiplication.
    pub fn mul(self, rhs: Felt) -> (r: Felt)
        ensures
            r@ == fmul(self@, rhs@),
    {
        proof {
            use_type_invariant(&self);
            use_type_invariant(&rhs);
            assert(self.value as int * rhs.value as int <= 0xFFFF_FFFF_FFFF_FFFF
                * 0xFFFF_FFFF_FFFF_FFFF) by (nonlinear_arith)
                requires
                    self.value <= 0xFFFF_FFFF_FFFF_FFFF,
                    rhs.value <= 0xFFFF_FFFF_FFFF_FFFF,
            ;
        }
        let s: u128 = self.value as u128 * rhs.value as u128;
        let m: u128 = s % (ORDER as u128);
        Felt { value: m as u64 }
    }

    /// Field negation.
    pub fn neg(self) -> (r: Felt)
        ensures
            r@ == fneg(self@),
    {
        proof {
            use_type_invariant(&self);
        }
        let s: u64 = ORDER - self.value;
        proof {
            lemma_mod_add_multiples_vanish(-(self.value as int), order());
        }
        Felt { value: s % ORDER }
    }
}

/// A sum in the field depends only on the elements that the integers name.
pub proof fn lemma_fadd_congruent(x: int, x2: int, y: int, y2: int)
    requires
        congruent(x, x2),
        congruent(y, y2),
    ensures
        fadd(x, y) == (x2 + y2) % order(),
{
    lemma_add_mod_noop(x, y, order());
    lemma_add_mod_noop(x2, y2, order());
}

/// A difference in the field depends only on the elements that the integers
/// name.
pub proof fn lemma_fsub_congruent(x: int, x2: int, y: int, y2: int)
    requires
        congruent(x, x2),
        congruent(y, y2),
    ensures
        fsub(x, y) == (x2 - y2) % order(),
{
    lemma_sub_mod_noop(x, y, order());
    lemma_sub_mod_noop(x2, y2, order());
}

/// An integer and its remainder name the same element.
pub proof fn lemma_mod_congruent(x: int)
    ensures
        congruent(x % order(), x),
{
    lemma_mod_twice(x, order());
}

} // verus!
