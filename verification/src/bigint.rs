//! Natural numbers of arbitrary size.
//!
//! A `BigNat` holds base-2^32 digits, least significant first; its view is the
//! number they spell. Products, quotients, remainders and comparisons are
//! made by `num::BigUint`; the conversions between digits and 16-bit limbs
//! are this crate's own.

use crate::polynomial::{
    coeff, lemma_eval_at_least, lemma_eval_bound, lemma_eval_nonnegative, lemma_eval_same_coeffs,
    poly_eval,
};
use num::BigUint;
use vstd::arithmetic::div_mod::{lemma_fundamental_div_mod, lemma_fundamental_div_mod_converse};
use vstd::arithmetic::power::*;
use vstd::prelude::*;

verus! {

/// The base of a limb, `2^16`.
pub const LIMB: u32 = 65536;

/// The base of a digit of a `BigNat`, `2^32`.
pub open spec fn digit_base() -> int {
    0x1_0000_0000
}

/// The limbs as mathematical integers.
pub open spec fn u16_ints(s: Seq<u16>) -> Seq<int> {
    Seq::new(s.len(), |i: int| s[i] as int)
}

/// The digits as mathematical integers.
pub open spec fn u32_ints(s: Seq<u32>) -> Seq<int> {
    Seq::new(s.len(), |i: int| s[i] as int)
}

/// The number that 16-bit limbs spell, least significant limb first.
pub open spec fn limbs_value(s: Seq<u16>) -> int {
    poly_eval(u16_ints(s), 65536)
}

/// The number that 32-bit digits spell, least significant digit first.
pub open spec fn digits_value(s: Seq<u32>) -> int {
    poly_eval(u32_ints(s), digit_base())
}

/// The 16-bit limbs of a sequence of 32-bit digits: two per digit.
pub open spec fn digit_limbs(d: Seq<u32>) -> Seq<u16> {
    Seq::new(
        2 * d.len(),
        |i: int|
            if i % 2 == 0 {
                (d[i / 2] % 65536) as u16
            } else {
                (d[i / 2] / 65536) as u16
            },
    )
}

/// Digits and their limbs spell the same number.
pub proof fn lemma_digit_limbs_value(d: Seq<u32>)
    ensures
        limbs_value(digit_limbs(d)) == digits_value(d),
    decreases d.len(),
{
    let l = digit_limbs(d);
    if d.len() > 0 {
        let d1 = d.drop_first();
        lemma_digit_limbs_value(d1);
        let li = u16_ints(l);
        assert(li.drop_first().drop_first() =~= u16_ints(digit_limbs(d1))) by {
            assert forall|i: int| 0 <= i < 2 * d1.len() implies li.drop_first().drop_first()[i]
                == u16_ints(digit_limbs(d1))[i] by {
                assert((i + 2) / 2 == i / 2 + 1);
                assert((i + 2) % 2 == i % 2);
            }
        }
        assert(u32_ints(d).drop_first() =~= u32_ints(d1));
        let rest = limbs_value(digit_limbs(d1));
        assert(poly_eval(li.drop_first(), 65536) == li[1] + 65536 * rest);
        assert(li[0] == d[0] as int % 65536);
        assert(li[1] == d[0] as int / 65536);
        assert(li[0] + 65536 * (li[1] + 65536 * rest) == d[0] + digit_base() * rest)
            by (nonlinear_arith)
            requires
                li[0] == d[0] as int % 65536,
                li[1] == d[0] as int / 65536,
                digit_base() == 65536 * 65536,
        ;
    } else {
        assert(u16_ints(l) =~= Seq::<int>::empty());
    }
}

/// Digits spell a number that is not negative.
pub proof fn lemma_digits_value_nonnegative(d: Seq<u32>)
    ensures
        0 <= digits_value(d),
{
    lemma_eval_nonnegative(u32_ints(d), digit_base());
}

/// Limbs spell a number below `65536^len`.
pub proof fn lemma_limbs_value_bound(l: Seq<u16>)
    ensures
        0 <= limbs_value(l) < pow(65536, l.len()),
{
    lemma_eval_bound(u16_ints(l), 65536);
}

/// The `n` lowest limbs of `x`, least significant first.
pub open spec fn limbs_of(x: int, n: nat) -> Seq<int>
    decreases n,
{
    if n == 0 {
        Seq::empty()
    } else {
        seq![x % 65536].add(limbs_of(x / 65536, (n - 1) as nat))
    }
}

/// The `n` lowest limbs of a number are `n` limbs, each below `65536`.
pub proof fn lemma_limbs_of_range(x: int, n: nat)
    ensures
        limbs_of(x, n).len() == n,
        forall|i: int| 0 <= i < n ==> 0 <= #[trigger] limbs_of(x, n)[i] < 65536,
    decreases n,
{
    if n > 0 {
        lemma_limbs_of_range(x / 65536, (n - 1) as nat);
    }
}

/// Limbs in range are the limbs of the number that they spell.
pub proof fn lemma_limbs_unique(l: Seq<int>)
    requires
        forall|i: int| 0 <= i < l.len() ==> 0 <= #[trigger] l[i] < 65536,
    ensures
        l == limbs_of(poly_eval(l, 65536), l.len()),
    decreases l.len(),
{
    if l.len() > 0 {
        let l1 = l.drop_first();
        lemma_limbs_unique(l1);
        let e = poly_eval(l1, 65536);
        let x = poly_eval(l, 65536);
        assert(x == e * 65536 + l[0]);
        lemma_fundamental_div_mod_converse(x, 65536, e, l[0]);
        assert(l =~= seq![x % 65536].add(limbs_of(x / 65536, (l.len() - 1) as nat)));
    } else {
        assert(l =~= Seq::<int>::empty());
    }
}

/// The `n` lowest limbs of a number below `65536^n` spell it.
pub proof fn lemma_limbs_of_value(x: int, n: nat)
    requires
        0 <= x < pow(65536, n),
    ensures
        poly_eval(limbs_of(x, n), 65536) == x,
    decreases n,
{
    reveal(pow);
    if n > 0 {
        let q = x / 65536;
        let p1 = pow(65536, (n - 1) as nat);
        lemma_fundamental_div_mod(x, 65536);
        assert(0 <= q < p1) by (nonlinear_arith)
            requires
                0 <= x < 65536 * p1,
                x == 65536 * q + x % 65536,
                0 <= x % 65536 < 65536,
        ;
        lemma_limbs_of_value(q, (n - 1) as nat);
        let l = limbs_of(x, n);
        assert(l.drop_first() =~= limbs_of(q, (n - 1) as nat));
    }
}

/// A natural number of arbitrary size.
#[derive(Debug)]
pub struct BigNat {
    digits: Vec<u32>,
}

impl BigNat {
    /// The number itself.
    pub closed spec fn view(&self) -> nat {
        digits_value(self.digits@) as nat
    }

    /// The number that the digits spell, least significant digit first.
    pub fn from_u32_digits(digits: Vec<u32>) -> (r: BigNat)
        ensures
            r@ == digits_value(digits@),
    {
        proof {
            lemma_digits_value_nonnegative(digits@);
        }
        BigNat { digits }
    }

    /// Base-2^32 digits of the number, least significant digit first.
    pub fn to_u32_digits(&self) -> (r: Vec<u32>)
        ensures
            digits_value(r@) == self@,
    {
        proof {
            lemma_digits_value_nonnegative(self.digits@);
        }
        let mut out: Vec<u32> = Vec::new();
        let mut i: usize = 0;
        while i < self.digits.len()
            invariant
                i <= self.digits.len(),
                out@ =~= self.digits@.take(i as int),
            decreases self.digits.len() - i,
        {
            out.push(self.digits[i]);
            i += 1;
        }
        assert(out@ =~= self.digits@);
        out
    }

    /// A copy of the number.
    pub fn duplicate(&self) -> (r: BigNat)
        ensures
            r@ == self@,
    {
        let digits = self.to_u32_digits();
        proof {
            lemma_digits_value_nonnegative(digits@);
        }
        BigNat { digits }
    }

    /// The limb of weight `65536^i`.
    fn limb_at(&self, i: usize) -> (r: u16)
        ensures
            r as int == coeff(u16_ints(digit_limbs(self.digits@)), i as int),
    {
        let q: usize = i / 2;
        if q < self.digits.len() {
            let d: u32 = self.digits[q];
            if i % 2 == 0 {
                (d % 65536) as u16
            } else {
                (d / 65536) as u16
            }
        } else {
            0
        }
    }

    /// The number as `n` 16-bit limbs, least significant first, if it is below
    /// `65536^n`.
    pub fn to_limbs(&self, n: usize) -> (r: Option<Vec<u16>>)
        ensures
            r is Some <==> self@ < pow(65536, n as nat),
            r matches Some(l) ==> {
                &&& l@.len() == n
                &&& limbs_value(l@) == self@
                &&& u16_ints(l@) == limbs_of(self@ as int, n as nat)
            },
    {
        let ghost all = digit_limbs(self.digits@);
        let ghost alli = u16_ints(all);
        proof {
            lemma_digits_value_nonnegative(self.digits@);
            lemma_digit_limbs_value(self.digits@);
        }
        // the limbs from `n` upwards must all be zero
        let lo_from: usize = n / 2 + n % 2;
        let hi_from: usize = n / 2;
        let mut q: usize = hi_from;
        while q < self.digits.len()
            invariant
                hi_from <= q,
                lo_from == n / 2 + n % 2,
                hi_from == n / 2,
                all == digit_limbs(self.digits@),
                alli == u16_ints(all),
                limbs_value(all) == self@,
                forall|j: int| n <= j < 2 * q && j < all.len() ==> alli[j] == 0,
            decreases self.digits.len() - q,
        {
            let d: u32 = self.digits[q];
            let ghost j0 = 2 * q as int;
            if q >= lo_from && d % 65536 != 0 {
                proof {
                    assert(alli[j0] != 0);
                    lemma_eval_at_least(alli, 65536, j0);
                    lemma_pow_increases(65536, n as nat, j0 as nat);
                }
                return None;
            }
            if d / 65536 != 0 {
                proof {
                    assert(alli[j0 + 1] != 0);
                    lemma_eval_at_least(alli, 65536, j0 + 1);
                    lemma_pow_increases(65536, n as nat, (j0 + 1) as nat);
                }
                return None;
            }
            proof {
                assert forall|j: int| n <= j < 2 * (q + 1) && j < all.len() implies alli[j]
                    == 0 by {
                    if j == j0 {
                        assert(q >= lo_from);
                    }
                }
            }
            q += 1;
        }
        let mut out: Vec<u16> = Vec::new();
        let mut i: usize = 0;
        while i < n
            invariant
                i <= n,
                out@.len() == i,
                all == digit_limbs(self.digits@),
                alli == u16_ints(all),
                forall|j: int| 0 <= j < i ==> out@[j] as int == coeff(alli, j),
            decreases n - i,
        {
            let l: u16 = self.limb_at(i);
            out.push(l);
            i += 1;
        }
        proof {
            let oi = u16_ints(out@);
            assert forall|j: int| coeff(oi, j) == coeff(alli, j) by {
                if 0 <= j < alli.len() && j >= n {
                    assert(alli[j] == 0);
                }
            }
            lemma_eval_same_coeffs(oi, alli, 65536);
            lemma_limbs_value_bound(out@);
            lemma_limbs_unique(oi);
        }
        Some(out)
    }

    /// The number that 16-bit limbs spell, least significant limb first.
    pub fn from_limbs(limbs: &Vec<u16>) -> (r: BigNat)
        ensures
            r@ == limbs_value(limbs@),
    {
        let n: usize = limbs.len();
        let m: usize = n / 2 + n % 2;
        let mut digits: Vec<u32> = Vec::new();
        let mut q: usize = 0;
        while q < m
            invariant
                q <= m,
                n == limbs.len(),
                m == n / 2 + n % 2,
                digits@.len() == q,
                forall|j: int|
                    0 <= j < 2 * q ==> (#[trigger] digit_limbs(digits@)[j]) as int == coeff(
                        u16_ints(limbs@),
                        j,
                    ),
            decreases m - q,
        {
            let lo: u32 = limbs[2 * q] as u32;
            let hi: u32 = if 2 * q + 1 < n {
                limbs[2 * q + 1] as u32
            } else {
                0
            };
            let d: u32 = lo + 65536 * hi;
            let ghost before = digits@;
            digits.push(d);
            proof {
                assert forall|j: int| 0 <= j < 2 * (q + 1) implies (#[trigger] digit_limbs(
                    digits@,
                )[j]) as int == coeff(u16_ints(limbs@), j) by {
                    if j < 2 * q {
                        assert(digits@[j / 2] == before[j / 2]);
                        assert(digit_limbs(before)[j] as int == coeff(u16_ints(limbs@), j));
                    } else {
                        assert(j / 2 == q);
                        assert(d as int % 65536 == lo);
                        assert(d as int / 65536 == hi);
                    }
                }
            }
            q += 1;
        }
        proof {
            let a = u16_ints(digit_limbs(digits@));
            let b = u16_ints(limbs@);
            assert forall|j: int| coeff(a, j) == coeff(b, j) by {
                if 0 <= j < 2 * m {
                    assert(digit_limbs(digits@)[j] as int == coeff(b, j));
                }
            }
            lemma_eval_same_coeffs(a, b, 65536);
            lemma_digit_limbs_value(digits@);
            lemma_digits_value_nonnegative(digits@);
        }
        BigNat { digits }
    }

    /// Whether two numbers are equal.
    pub fn equals(&self, other: &BigNat) -> (r: bool)
        ensures
            r == (self@ == other@),
    {
        !big_lt(self, other) && !big_lt(other, self)
    }
}

/// The product of two numbers.
///
/// Calls `Mul` of `num::BigUint` on the two numbers rebuilt from their digits
/// with `BigUint::from_slice`, and takes the digits of the product with
/// `BigUint::to_u32_digits`. Claimed: the result is the exact product.
#[verifier::external_body]
pub(crate) fn big_mul(a: &BigNat, b: &BigNat) -> (r: BigNat)
    ensures
        r@ == a@ * b@,
{
    let p = BigUint::from_slice(&a.digits) * BigUint::from_slice(&b.digits);
    BigNat { digits: p.to_u32_digits() }
}

/// The remainder of `a` on division by `m`.
///
/// Calls `Rem` of `num::BigUint`, which panics on a zero divisor: that input
/// is left out. Claimed: the result is `a mod m`.
#[verifier::external_body]
pub(crate) fn big_rem(a: &BigNat, m: &BigNat) -> (r: BigNat)
    requires
        m@ != 0,
    ensures
        r@ == a@ % m@,
{
    let p = BigUint::from_slice(&a.digits) % BigUint::from_slice(&m.digits);
    BigNat { digits: p.to_u32_digits() }
}

/// The quotient of `a` by `m`, rounded down.
///
/// Calls `Div` of `num::BigUint`, which panics on a zero divisor: that input
/// is left out. Claimed: the result is the floor of `a / m`.
#[verifier::external_body]
pub(crate) fn big_div(a: &BigNat, m: &BigNat) -> (r: BigNat)
    requires
        m@ != 0,
    ensures
        r@ == a@ / m@,
{
    let p = BigUint::from_slice(&a.digits) / BigUint::from_slice(&m.digits);
    BigNat { digits: p.to_u32_digits() }
}

/// Whether `a` is below `b`.
///
/// Calls the `<` of `num::BigUint` on the two numbers rebuilt from their
/// digits. Claimed: the result is the comparison of the numbers.
#[verifier::external_body]
pub(crate) fn big_lt(a: &BigNat, b: &BigNat) -> (r: bool)
    ensures
        r == (a@ < b@),
{
    BigUint::from_slice(&a.digits) < BigUint::from_slice(&b.digits)
}

} // verus!
