//! Polynomial arithmetic on the variables of a parser.
//!
//! A run of variables stands for a polynomial, lowest degree first. What a
//! result denotes is stated coefficient by coefficient, in the field, over
//! what the arguments denote.

use crate::field::{
    congruent, fadd, fmul, lemma_fadd_congruent, lemma_fsub_congruent, lemma_mod_congruent, order,
    Felt,
};
use crate::parser::{denote_all, AirParser};
use crate::polynomial::{coeff, conv, lemma_conv_push, times_root};
use vstd::arithmetic::div_mod::lemma_mul_mod_noop_right;
use crate::trace::RowView;
use vstd::prelude::*;

verus! {

/// The constants with the given 16-bit values.
pub fn constants<AP: AirParser>(parser: &AP, values: &Vec<u16>) -> (vars: Vec<AP::Var>)
    ensures
        vars@.len() == values@.len(),
        forall|w: RowView|
            #[trigger] parser.binds(w) ==> denote_all::<AP>(vars@, w) == Seq::new(
                values@.len(),
                |i: int| values@[i] as int,
            ),
{
    let mut out: Vec<AP::Var> = Vec::new();
    let mut i: usize = 0;
    while i < values.len()
        invariant
            i <= values.len(),
            out@.len() == i,
            forall|w: RowView, j: int|
                #![trigger parser.binds(w), AP::denote(out@[j], w)]
                parser.binds(w) && 0 <= j < i ==> AP::denote(out@[j], w) == values@[j] as int,
        decreases values.len() - i,
    {
        let v = parser.constant(Felt::from_canonical_u16(values[i]));
        out.push(v);
        i += 1;
    }
    assert forall|w: RowView| #[trigger] parser.binds(w) implies denote_all::<AP>(out@, w)
        == Seq::new(values@.len(), |i: int| values@[i] as int) by {
        assert forall|j: int| 0 <= j < values@.len() implies denote_all::<AP>(out@, w)[j]
            == values@[j] as int by {
            assert(AP::denote(out@[j], w) == values@[j] as int);
        }
        assert(denote_all::<AP>(out@, w) =~= Seq::new(values@.len(), |i: int| values@[i] as int));
    }
    out
}

/// The coefficient of `X^k` in the product of two polynomials.
pub fn product_coefficient<AP: AirParser>(
    parser: &AP,
    a: &Vec<AP::Var>,
    b: &Vec<AP::Var>,
    k: usize,
) -> (v: AP::Var)
    ensures
        forall|w: RowView|
            #[trigger] parser.binds(w) ==> AP::denote(v, w) == conv(
                denote_all::<AP>(a@, w),
                denote_all::<AP>(b@, w),
                k as int,
            ) % order(),
{
    let mut acc: AP::Var = parser.constant(Felt::zero());
    let mut i: usize = 0;
    assert forall|w: RowView| #[trigger] parser.binds(w) implies AP::denote(acc, w) == conv(
        denote_all::<AP>(a@, w).take(0),
        denote_all::<AP>(b@, w),
        k as int,
    ) % order() by {
        assert(denote_all::<AP>(a@, w).take(0) =~= Seq::<int>::empty());
    }
    while i < a.len()
        invariant
            i <= a.len(),
            forall|w: RowView|
                #[trigger] parser.binds(w) ==> AP::denote(acc, w) == conv(
                    denote_all::<AP>(a@, w).take(i as int),
                    denote_all::<AP>(b@, w),
                    k as int,
                ) % order(),
        decreases a.len() - i,
    {
        if i <= k && k - i < b.len() {
            let term = parser.mul(&a[i], &b[k - i]);
            let sum = parser.add(&acc, &term);
            assert forall|w: RowView| #[trigger] parser.binds(w) implies AP::denote(sum, w)
                == conv(
                denote_all::<AP>(a@, w).take(i + 1),
                denote_all::<AP>(b@, w),
                k as int,
            ) % order() by {
                let da = denote_all::<AP>(a@, w);
                let db = denote_all::<AP>(b@, w);
                let before = conv(da.take(i as int), db, k as int);
                lemma_conv_push(da.take(i as int), da[i as int], db, k as int);
                assert(da.take(i as int).push(da[i as int]) =~= da.take(i + 1));
                assert(coeff(db, k - i) == db[k - i]);
                let t = da[i as int] * db[k - i];
                assert(AP::denote(term, w) == t % order());
                lemma_mod_congruent(before);
                lemma_mod_congruent(t);
                lemma_fadd_congruent(before % order(), before, t % order(), t);
            }
            acc = sum;
        } else {
            assert forall|w: RowView| #[trigger] parser.binds(w) implies AP::denote(acc, w)
                == conv(
                denote_all::<AP>(a@, w).take(i + 1),
                denote_all::<AP>(b@, w),
                k as int,
            ) % order() by {
                let da = denote_all::<AP>(a@, w);
                let db = denote_all::<AP>(b@, w);
                lemma_conv_push(da.take(i as int), da[i as int], db, k as int);
                assert(da.take(i as int).push(da[i as int]) =~= da.take(i + 1));
                assert(coeff(db, k - i) == 0);
            }
        }
        i += 1;
    }
    assert forall|w: RowView| #[trigger] parser.binds(w) implies AP::denote(acc, w) == conv(
        denote_all::<AP>(a@, w),
        denote_all::<AP>(b@, w),
        k as int,
    ) % order() by {
        assert(denote_all::<AP>(a@, w).take(a@.len() as int) =~= denote_all::<AP>(a@, w));
    }
    acc
}

/// The coefficient of `X^k` in `A·C - R - Carry·P - W·(X - 65536)`, in the
/// field.
pub open spec fn residue_over(
    a: Seq<int>,
    c: Seq<int>,
    r: Seq<int>,
    carry: Seq<int>,
    p: Seq<int>,
    wit: Seq<int>,
    k: int,
) -> int {
    (conv(a, c, k) - coeff(r, k) - conv(carry, p, k) - times_root(wit, 65536, k)) % order()
}

/// The witness that two halves and an offset spell: `low + 65536·high - offset`
/// for each pair of halves, in the field.
pub open spec fn witness_over(low: Seq<int>, high: Seq<int>, offset: int) -> Seq<int> {
    Seq::new(low.len(), |j: int| (low[j] + 65536 * high[j] - offset) % order())
}

/// The residue depends only on the field elements that the witness names.
pub proof fn lemma_residue_congruent(
    a: Seq<int>,
    c: Seq<int>,
    r: Seq<int>,
    carry: Seq<int>,
    p: Seq<int>,
    wit: Seq<int>,
    wit2: Seq<int>,
    k: int,
)
    requires
        wit.len() == wit2.len(),
        forall|j: int| 0 <= j < wit.len() ==> congruent(#[trigger] wit[j], wit2[j]),
    ensures
        residue_over(a, c, r, carry, p, wit, k) == residue_over(a, c, r, carry, p, wit2, k),
{
    let v = conv(a, c, k) - coeff(r, k) - conv(carry, p, k);
    let x = coeff(wit, k - 1);
    let x2 = coeff(wit2, k - 1);
    let y = coeff(wit, k);
    let y2 = coeff(wit2, k);
    assert(congruent(x, x2)) by {
        if 0 <= k - 1 < wit.len() {
            assert(congruent(wit[k - 1], wit2[k - 1]));
        }
    }
    assert(congruent(y, y2)) by {
        if 0 <= k < wit.len() {
            assert(congruent(wit[k], wit2[k]));
        }
    }
    lemma_mul_mod_noop_right(65536, y, order());
    lemma_mul_mod_noop_right(65536, y2, order());
    assert(congruent(65536 * y, 65536 * y2));
    lemma_fsub_congruent(x, x2, 65536 * y, 65536 * y2);
    lemma_fsub_congruent(x, x, 65536 * y, 65536 * y);
    assert(congruent(x - 65536 * y, x2 - 65536 * y2));
    lemma_fsub_congruent(v, v, x - 65536 * y, x2 - 65536 * y2);
    lemma_fsub_congruent(v, v, x - 65536 * y, x - 65536 * y);
}

/// The witness polynomial from its two halves: `low + 65536·high - offset`,
/// coefficient by coefficient.
pub fn witness_vars<AP: AirParser>(
    parser: &AP,
    low: &Vec<AP::Var>,
    high: &Vec<AP::Var>,
    offset: u32,
) -> (vars: Vec<AP::Var>)
    requires
        low@.len() == high@.len(),
    ensures
        vars@.len() == low@.len(),
        forall|w: RowView|
            #[trigger] parser.binds(w) ==> denote_all::<AP>(vars@, w) == witness_over(
                denote_all::<AP>(low@, w),
                denote_all::<AP>(high@, w),
                offset as int,
            ),
{
    let limb = parser.constant(Felt::from_canonical_u32(65536));
    let off = parser.constant(Felt::from_canonical_u32(offset));
    let mut out: Vec<AP::Var> = Vec::new();
    let mut j: usize = 0;
    while j < low.len()
        invariant
            j <= low@.len(),
            low@.len() == high@.len(),
            out@.len() == j,
            forall|w: RowView| #[trigger] parser.binds(w) ==> AP::denote(limb, w) == 65536,
            forall|w: RowView| #[trigger] parser.binds(w) ==> AP::denote(off, w) == offset as int,
            forall|w: RowView, i: int|
                #![trigger parser.binds(w), AP::denote(out@[i], w)]
                parser.binds(w) && 0 <= i < j ==> AP::denote(out@[i], w) == (AP::denote(
                    low@[i],
                    w,
                ) + 65536 * AP::denote(high@[i], w) - offset) % order(),
        decreases low.len() - j,
    {
        let t = parser.mul(&high[j], &limb);
        let s = parser.add(&low[j], &t);
        let v = parser.sub(&s, &off);
        assert forall|w: RowView| #[trigger] parser.binds(w) implies AP::denote(v, w) == (
        AP::denote(low@[j as int], w) + 65536 * AP::denote(high@[j as int], w) - offset)
            % order() by {
            let lo = AP::denote(low@[j as int], w);
            let hi = AP::denote(high@[j as int], w);
            assert(AP::denote(t, w) == fmul(hi, 65536));
            assert(hi * 65536 == 65536 * hi);
            lemma_mod_congruent(65536 * hi);
            lemma_fadd_congruent(lo, lo, fmul(hi, 65536), 65536 * hi);
            lemma_mod_congruent(lo + 65536 * hi);
            lemma_fsub_congruent(
                fadd(lo, fmul(hi, 65536)),
                lo + 65536 * hi,
                offset as int,
                offset as int,
            );
        }
        out.push(v);
        j += 1;
    }
    assert forall|w: RowView| #[trigger] parser.binds(w) implies denote_all::<AP>(out@, w)
        == witness_over(
        denote_all::<AP>(low@, w),
        denote_all::<AP>(high@, w),
        offset as int,
    ) by {
        let want = witness_over(
            denote_all::<AP>(low@, w),
            denote_all::<AP>(high@, w),
            offset as int,
        );
        assert forall|i: int| 0 <= i < low@.len() implies denote_all::<AP>(out@, w)[i]
            == want[i] by {
            assert(AP::denote(out@[i], w) == (AP::denote(low@[i], w) + 65536 * AP::denote(
                high@[i],
                w,
            ) - offset) % order());
        }
        assert(denote_all::<AP>(out@, w) =~= want);
    }
    out
}

/// The variable that must be zero for the coefficient of `X^k`:
/// `(A·C - R - Carry·P)_k - (W·(X - 65536))_k`.
pub fn residue_var<AP: AirParser>(
    parser: &AP,
    a: &Vec<AP::Var>,
    c: &Vec<AP::Var>,
    r: &Vec<AP::Var>,
    carry: &Vec<AP::Var>,
    p: &Vec<AP::Var>,
    wit: &Vec<AP::Var>,
    k: usize,
) -> (v: AP::Var)
    ensures
        forall|w: RowView|
            #[trigger] parser.binds(w) ==> AP::denote(v, w) == residue_over(
                denote_all::<AP>(a@, w),
                denote_all::<AP>(c@, w),
                denote_all::<AP>(r@, w),
                denote_all::<AP>(carry@, w),
                denote_all::<AP>(p@, w),
                denote_all::<AP>(wit@, w),
                k as int,
            ),
{
    let limb = parser.constant(Felt::from_canonical_u32(65536));
    let zero = parser.constant(Felt::zero());
    let ac = product_coefficient(parser, a, c, k);
    let cp = product_coefficient(parser, carry, p, k);
    let t1 = if k < r.len() {
        parser.sub(&ac, &r[k])
    } else {
        parser.sub(&ac, &zero)
    };
    let vk = parser.sub(&t1, &cp);
    let t2 = if k >= 1 && k - 1 < wit.len() {
        parser.sub(&vk, &wit[k - 1])
    } else {
        parser.sub(&vk, &zero)
    };
    let t3 = if k < wit.len() {
        parser.mul(&limb, &wit[k])
    } else {
        parser.mul(&limb, &zero)
    };
    let res = parser.add(&t2, &t3);
    assert forall|w: RowView| #[trigger] parser.binds(w) implies AP::denote(res, w)
        == residue_over(
        denote_all::<AP>(a@, w),
        denote_all::<AP>(c@, w),
        denote_all::<AP>(r@, w),
        denote_all::<AP>(carry@, w),
        denote_all::<AP>(p@, w),
        denote_all::<AP>(wit@, w),
        k as int,
    ) by {
        let da = denote_all::<AP>(a@, w);
        let dc = denote_all::<AP>(c@, w);
        let dr = denote_all::<AP>(r@, w);
        let dcarry = denote_all::<AP>(carry@, w);
        let dp = denote_all::<AP>(p@, w);
        let dw = denote_all::<AP>(wit@, w);
        let x = conv(da, dc, k as int);
        let y = conv(dcarry, dp, k as int);
        let rk = coeff(dr, k as int);
        let w0 = coeff(dw, k - 1);
        let w1 = coeff(dw, k as int);
        lemma_mod_congruent(x);
        lemma_mod_congruent(y);
        lemma_fsub_congruent(x % order(), x, rk, rk);
        assert(AP::denote(t1, w) == (x - rk) % order());
        lemma_mod_congruent(x - rk);
        lemma_fsub_congruent((x - rk) % order(), x - rk, y % order(), y);
        assert(AP::denote(vk, w) == (x - rk - y) % order());
        lemma_mod_congruent(x - rk - y);
        lemma_fsub_congruent((x - rk - y) % order(), x - rk - y, w0, w0);
        assert(AP::denote(t2, w) == (x - rk - y - w0) % order());
        assert(AP::denote(t3, w) == fmul(65536, w1));
        lemma_mod_congruent(65536 * w1);
        lemma_mod_congruent(x - rk - y - w0);
        lemma_fadd_congruent(
            (x - rk - y - w0) % order(),
            x - rk - y - w0,
            fmul(65536, w1),
            65536 * w1,
        );
    }
    res
}

} // verus!
