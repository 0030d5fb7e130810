//! Arithmetic on limbs: products of limb polynomials, the witness of a
//! vanishing polynomial, and the injection of limbs into the field.

use crate::bigint::{u16_ints, LIMB};
use crate::field::Felt;
use crate::polynomial::{coeff, conv, lemma_conv_push, root_quotient, suffix_eval};
use crate::trace::felts;
use vstd::prelude::*;

verus! {

/// The coefficients as mathematical integers.
pub open spec fn i64_ints(s: Seq<i64>) -> Seq<int> {
    Seq::new(s.len(), |i: int| s[i] as int)
}

/// The largest product of two limbs, `65535^2`.
pub open spec fn limb_square() -> int {
    4294836225
}

/// The coefficient of `X^k` in the product of two limb polynomials.
pub(crate) fn limb_product_coefficient(a: &Vec<u16>, b: &Vec<u16>, k: usize) -> (r: i64)
    requires
        a@.len() <= 32,
    ensures
        r == conv(u16_ints(a@), u16_ints(b@), k as int),
        0 <= r <= a@.len() * limb_square(),
{
    let ghost ai = u16_ints(a@);
    let ghost bi = u16_ints(b@);
    let mut acc: i64 = 0;
    let mut i: usize = 0;
    assert(ai.take(0) =~= Seq::<int>::empty());
    while i < a.len()
        invariant
            i <= a@.len() <= 32,
            ai == u16_ints(a@),
            bi == u16_ints(b@),
            acc == conv(ai.take(i as int), bi, k as int),
            0 <= acc <= i * limb_square(),
        decreases a.len() - i,
    {
        proof {
            lemma_conv_push(ai.take(i as int), ai[i as int], bi, k as int);
            assert(ai.take(i as int).push(ai[i as int]) =~= ai.take(i + 1));
        }
        if i <= k && k - i < b.len() {
            let x: i64 = a[i] as i64;
            let y: i64 = b[k - i] as i64;
            assert(0 <= x * y <= limb_square()) by (nonlinear_arith)
                requires
                    0 <= x <= 65535,
                    0 <= y <= 65535,
            ;
            assert(coeff(bi, k - i) == y);
            assert(ai[i as int] == x);
            acc = acc + x * y;
        } else {
            assert(coeff(bi, k - i) == 0);
            assert(ai[i as int] * coeff(bi, k - i) == 0) by (nonlinear_arith)
                requires
                    coeff(bi, k - i) == 0,
            ;
        }
        i += 1;
    }
    assert(ai.take(a@.len() as int) =~= ai);
    acc
}

/// The quotient of `v` by `X - 65536`, each coefficient raised by `offset`,
/// if every raised coefficient fits in 32 bits.
pub(crate) fn extract_witness_and_shift(v: &Vec<i64>, offset: u32) -> (r: Option<Vec<u32>>)
    requires
        v@.len() >= 1,
        forall|k: int| 0 <= k < v@.len() ==> -0x100_0000_0000 < #[trigger] v@[k] < 0x100_0000_0000,
    ensures
        r is Some <==> forall|j: int|
            0 <= j < v@.len() - 1 ==> 0 <= #[trigger] root_quotient(i64_ints(v@), 65536)[j] + offset
                < 0x1_0000_0000,
        r matches Some(s) ==> {
            &&& s@.len() == v@.len() - 1
            &&& forall|j: int|
                0 <= j < s@.len() ==> (#[trigger] s@[j]) as int == root_quotient(
                    i64_ints(v@),
                    65536,
                )[j] + offset
        },
{
    let ghost vi = i64_ints(v@);
    let ghost q = root_quotient(vi, 65536);
    let n: usize = v.len();
    let mut out: Vec<u32> = Vec::new();
    let mut i: usize = 0;
    while i < n - 1
        invariant
            i <= n - 1,
            n == v@.len(),
            out@.len() == i,
        decreases n - 1 - i,
    {
        out.push(0);
        i += 1;
    }
    let mut acc: i64 = 0;
    let mut k: usize = n - 1;
    while k > 0
        invariant
            k <= n - 1,
            n == v@.len(),
            vi == i64_ints(v@),
            q == root_quotient(vi, 65536),
            out@.len() == n - 1,
            acc == suffix_eval(vi, k + 1, 65536),
            -0x1_0000_0000 < acc < 0x1_0000_0000,
            forall|k: int|
                0 <= k < v@.len() ==> -0x100_0000_0000 < #[trigger] v@[k] < 0x100_0000_0000,
            forall|j: int|
                k <= j < n - 1 ==> 0 <= #[trigger] q[j] + offset < 0x1_0000_0000 && out@[j] as int
                    == q[j] + offset,
        decreases k,
    {
        assert(vi[k as int] == v@[k as int]);
        let next_acc: i64 = v[k] + 65536 * acc;
        assert(next_acc == suffix_eval(vi, k as int, 65536));
        assert(q[k - 1] == next_acc);
        let shifted: i64 = next_acc + offset as i64;
        if shifted < 0 || shifted > 0xFFFF_FFFF {
            return None;
        }
        out.set(k - 1, shifted as u32);
        acc = next_acc;
        k -= 1;
    }
    Some(out)
}

/// The low and the high 16 bits of each number, as field elements.
pub(crate) fn split_digits(shifted: &Vec<u32>) -> (r: (Vec<Felt>, Vec<Felt>))
    ensures
        r.0@.len() == shifted@.len(),
        r.1@.len() == shifted@.len(),
        forall|i: int| 0 <= i < shifted@.len() ==> (#[trigger] r.0@[i])@ == shifted@[i] % 65536,
        forall|i: int| 0 <= i < shifted@.len() ==> (#[trigger] r.1@[i])@ == shifted@[i] / 65536,
{
    let mut low: Vec<Felt> = Vec::new();
    let mut high: Vec<Felt> = Vec::new();
    let mut i: usize = 0;
    while i < shifted.len()
        invariant
            i <= shifted.len(),
            low@.len() == i,
            high@.len() == i,
            forall|j: int| 0 <= j < i ==> (#[trigger] low@[j])@ == shifted@[j] % 65536,
            forall|j: int| 0 <= j < i ==> (#[trigger] high@[j])@ == shifted@[j] / 65536,
        decreases shifted.len() - i,
    {
        let s: u32 = shifted[i];
        low.push(Felt::from_canonical_u16((s % LIMB) as u16));
        high.push(Felt::from_canonical_u16((s / LIMB) as u16));
        i += 1;
    }
    (low, high)
}

/// The limbs as field elements.
pub(crate) fn to_field_iter(limbs: &Vec<u16>) -> (r: Vec<Felt>)
    ensures
        felts(r@) == u16_ints(limbs@),
{
    let mut out: Vec<Felt> = Vec::new();
    let mut i: usize = 0;
    while i < limbs.len()
        invariant
            i <= limbs.len(),
            out@.len() == i,
            forall|j: int| 0 <= j < i ==> (#[trigger] out@[j])@ == limbs@[j] as int,
        decreases limbs.len() - i,
    {
        out.push(Felt::from_canonical_u16(limbs[i]));
        i += 1;
    }
    assert(felts(out@) =~= u16_ints(limbs@));
    out
}

} // verus!
