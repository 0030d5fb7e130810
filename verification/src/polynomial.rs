//! Polynomials with integer coefficients, lowest degree first.
//!
//! A sequence `s` stands for the polynomial `s[0] + s[1]·X + s[2]·X² + …`.
//! This module holds the mathematical definitions (evaluation, product,
//! quotient by a linear factor) and the algebra that the rest of the crate
//! rests on.

use vstd::arithmetic::power::pow;
use vstd::prelude::*;

verus! {

/// The coefficient of `X^i`, which is zero outside the sequence.
pub open spec fn coeff(s: Seq<int>, i: int) -> int {
    if 0 <= i < s.len() {
        s[i]
    } else {
        0
    }
}

/// The value of the polynomial at `x`.
pub open spec fn poly_eval(s: Seq<int>, x: int) -> int
    decreases s.len(),
{
    if s.len() == 0 {
        0
    } else {
        s[0] + x * poly_eval(s.drop_first(), x)
    }
}

/// The coefficient of `X^k` in the product of `a` and `b`:
/// the sum of `a[i]·b[k - i]` over all `i`.
pub open spec fn conv(a: Seq<int>, b: Seq<int>, k: int) -> int
    decreases a.len(),
{
    if a.len() == 0 {
        0
    } else {
        a[0] * coeff(b, k) + conv(a.drop_first(), b, k - 1)
    }
}

/// The first `n` coefficients of the product of `a` and `b`.
pub open spec fn poly_mul(a: Seq<int>, b: Seq<int>, n: nat) -> Seq<int> {
    Seq::new(n, |k: int| conv(a, b, k))
}

/// The value at `x` of the part of `v` from `X^k` upwards, divided by `X^k`.
pub open spec fn suffix_eval(v: Seq<int>, k: int, x: int) -> int
    decreases v.len() - k,
{
    if k < 0 || k >= v.len() {
        0
    } else {
        v[k] + x * suffix_eval(v, k + 1, x)
    }
}

/// The quotient of `v` by `X - x`: one coefficient fewer than `v`, and exact
/// when `x` is a root of `v`.
pub open spec fn root_quotient(v: Seq<int>, x: int) -> Seq<int> {
    Seq::new(
        if v.len() == 0 {
            0nat
        } else {
            (v.len() - 1) as nat
        },
        |k: int| suffix_eval(v, k + 1, x),
    )
}

/// The coefficient of `X^k` in `w·(X - x)`.
pub open spec fn times_root(w: Seq<int>, x: int, k: int) -> int {
    coeff(w, k - 1) - x * coeff(w, k)
}

/// The part of `v` from `X^k` upwards is the polynomial on the coefficients
/// from the `k`-th on.
pub proof fn lemma_suffix_eval_is_eval(v: Seq<int>, k: int, x: int)
    requires
        0 <= k <= v.len(),
    ensures
        suffix_eval(v, k, x) == poly_eval(v.skip(k), x),
    decreases v.len() - k,
{
    if k < v.len() {
        lemma_suffix_eval_is_eval(v, k + 1, x);
        assert(v.skip(k).drop_first() =~= v.skip(k + 1));
    }
}

/// Multiplying the quotient by `X - x` gives `v` back, coefficient by
/// coefficient, when `x` is a root of `v`.
pub proof fn lemma_root_quotient(v: Seq<int>, x: int, k: int)
    requires
        poly_eval(v, x) == 0,
    ensures
        times_root(root_quotient(v, x), x, k) == coeff(v, k),
{
    let w = root_quotient(v, x);
    let n = v.len() as int;
    if n == 0 {
    } else {
        lemma_suffix_eval_is_eval(v, 0, x);
        assert(v.skip(0) =~= v);
        assert(suffix_eval(v, 0, x) == 0);
        if k < 0 || k >= n {
            if k == n {
                assert(coeff(w, k - 1) == suffix_eval(v, k, x));
            }
        } else if k == 0 {
            if n == 1 {
                assert(suffix_eval(v, 1, x) == 0);
            }
            assert(suffix_eval(v, 0, x) == v[0] + x * suffix_eval(v, 1, x));
        } else {
            assert(coeff(w, k - 1) == suffix_eval(v, k, x));
            if k == n - 1 {
                assert(suffix_eval(v, k + 1, x) == 0);
                assert(coeff(w, k) == 0);
            } else {
                assert(coeff(w, k) == suffix_eval(v, k + 1, x));
            }
        }
    }
}

/// One more coefficient `t` at the top of `a` adds `t·b[k - |a|]` to the
/// coefficient of `X^k` in the product.
pub proof fn lemma_conv_push(a: Seq<int>, t: int, b: Seq<int>, k: int)
    ensures
        conv(a.push(t), b, k) == conv(a, b, k) + t * coeff(b, k - a.len()),
    decreases a.len(),
{
    let ap = a.push(t);
    if a.len() == 0 {
        assert(ap.drop_first() =~= Seq::<int>::empty());
        assert(conv(ap.drop_first(), b, k - 1) == 0);
        assert(ap[0] == t);
    } else {
        assert(ap.drop_first() =~= a.drop_first().push(t));
        lemma_conv_push(a.drop_first(), t, b, k - 1);
        assert(ap[0] == a[0]);
    }
}

/// The product has no coefficient below `X^0`.
pub proof fn lemma_conv_negative(a: Seq<int>, b: Seq<int>, k: int)
    requires
        k < 0,
    ensures
        conv(a, b, k) == 0,
    decreases a.len(),
{
    if a.len() > 0 {
        lemma_conv_negative(a.drop_first(), b, k - 1);
    }
}

/// The product has no coefficient from `X^(|a| + |b| - 1)` upwards.
pub proof fn lemma_conv_high(a: Seq<int>, b: Seq<int>, k: int)
    requires
        k >= a.len() + b.len() - 1,
    ensures
        conv(a, b, k) == 0,
    decreases a.len(),
{
    if a.len() > 0 {
        lemma_conv_high(a.drop_first(), b, k - 1);
    }
}

/// The zero polynomial has the value zero.
pub proof fn lemma_eval_zeros(s: Seq<int>, x: int)
    requires
        forall|i: int| 0 <= i < s.len() ==> s[i] == 0,
    ensures
        poly_eval(s, x) == 0,
    decreases s.len(),
{
    if s.len() > 0 {
        lemma_eval_zeros(s.drop_first(), x);
    }
}

/// Evaluation is linear: `eval(p·s + q·t) = p·eval(s) + q·eval(t)`.
pub proof fn lemma_eval_linear(s: Seq<int>, t: Seq<int>, p: int, q: int, r: Seq<int>, x: int)
    requires
        s.len() == t.len(),
        r.len() == s.len(),
        forall|i: int| 0 <= i < r.len() ==> r[i] == p * s[i] + q * t[i],
    ensures
        poly_eval(r, x) == p * poly_eval(s, x) + q * poly_eval(t, x),
    decreases s.len(),
{
    if s.len() > 0 {
        lemma_eval_linear(s.drop_first(), t.drop_first(), p, q, r.drop_first(), x);
        let es = poly_eval(s.drop_first(), x);
        let et = poly_eval(t.drop_first(), x);
        assert(x * (p * es + q * et) == x * (p * es) + x * (q * et)) by (nonlinear_arith);
        assert(x * (p * es) == p * (x * es)) by (nonlinear_arith);
        assert(x * (q * et) == q * (x * et)) by (nonlinear_arith);
        assert(p * (s[0] + x * es) == p * s[0] + p * (x * es)) by (nonlinear_arith);
        assert(q * (t[0] + x * et) == q * t[0] + q * (x * et)) by (nonlinear_arith);
    }
}

/// Zero coefficients at the top do not change the value.
pub proof fn lemma_eval_padded(s: Seq<int>, n: nat, x: int)
    requires
        n >= s.len(),
    ensures
        poly_eval(Seq::new(n, |i: int| coeff(s, i)), x) == poly_eval(s, x),
    decreases n,
{
    let p = Seq::new(n, |i: int| coeff(s, i));
    if s.len() == 0 {
        lemma_eval_zeros(p, x);
    } else {
        let s1 = s.drop_first();
        let p1 = Seq::new((n - 1) as nat, |i: int| coeff(s1, i));
        assert(p.drop_first() =~= p1);
        lemma_eval_padded(s1, (n - 1) as nat, x);
    }
}

/// Evaluation turns the product of polynomials into the product of values.
pub proof fn lemma_eval_mul(a: Seq<int>, b: Seq<int>, n: nat, x: int)
    requires
        n >= a.len() + b.len() - 1,
    ensures
        poly_eval(poly_mul(a, b, n), x) == poly_eval(a, x) * poly_eval(b, x),
    decreases a.len(),
{
    let prod = poly_mul(a, b, n);
    if a.len() == 0 {
        lemma_eval_zeros(prod, x);
    } else {
        let a1 = a.drop_first();
        let bp = Seq::new(n, |k: int| coeff(b, k));
        let sh = Seq::new(n, |k: int| conv(a1, b, k - 1));
        assert forall|i: int| 0 <= i < n implies prod[i] == a[0] * bp[i] + 1 * sh[i] by {}
        lemma_eval_linear(bp, sh, a[0], 1, prod, x);
        lemma_eval_padded(b, n, x);
        // the shifted product starts with a zero coefficient
        lemma_conv_negative(a1, b, -1);
        if n == 0 {
            assert(b.len() == 0);
            assert(poly_eval(b, x) == 0);
            assert(poly_eval(prod, x) == 0);
            assert(poly_eval(a, x) * poly_eval(b, x) == 0) by (nonlinear_arith)
                requires
                    poly_eval(b, x) == 0,
            ;
        } else {
            let rest = poly_mul(a1, b, (n - 1) as nat);
            assert(sh.drop_first() =~= rest);
            lemma_eval_mul(a1, b, (n - 1) as nat, x);
            let ea1 = poly_eval(a1, x);
            let eb = poly_eval(b, x);
            assert(poly_eval(sh, x) == x * (ea1 * eb));
            assert(a[0] * eb + 1 * (x * (ea1 * eb)) == (a[0] + x * ea1) * eb)
                by (nonlinear_arith);
        }
    }
}

/// Two sequences with the same coefficients everywhere have the same value.
pub proof fn lemma_eval_same_coeffs(s: Seq<int>, t: Seq<int>, x: int)
    requires
        forall|i: int| coeff(s, i) == coeff(t, i),
    ensures
        poly_eval(s, x) == poly_eval(t, x),
    decreases s.len() + t.len(),
{
    if s.len() == 0 {
        assert forall|i: int| 0 <= i < t.len() implies t[i] == 0 by {
            assert(coeff(s, i) == coeff(t, i));
        }
        lemma_eval_zeros(t, x);
    } else if t.len() == 0 {
        assert forall|i: int| 0 <= i < s.len() implies s[i] == 0 by {
            assert(coeff(s, i) == coeff(t, i));
        }
        lemma_eval_zeros(s, x);
    } else {
        let s1 = s.drop_first();
        let t1 = t.drop_first();
        assert forall|i: int| coeff(s1, i) == coeff(t1, i) by {
            assert(coeff(s, i + 1) == coeff(t, i + 1));
        }
        assert(coeff(s, 0) == coeff(t, 0));
        lemma_eval_same_coeffs(s1, t1, x);
    }
}

/// With coefficients in `[0, x)`, the value lies in `[0, x^len)`.
pub proof fn lemma_eval_bound(s: Seq<int>, x: int)
    requires
        x > 0,
        forall|i: int| 0 <= i < s.len() ==> 0 <= #[trigger] s[i] && s[i] < x,
    ensures
        0 <= poly_eval(s, x) < pow(x, s.len()),
    decreases s.len(),
{
    reveal(pow);
    if s.len() > 0 {
        let s1 = s.drop_first();
        lemma_eval_bound(s1, x);
        let e = poly_eval(s1, x);
        let p = pow(x, s1.len());
        assert(pow(x, s.len()) == x * p);
        assert(0 <= s[0] + x * e < x * p) by (nonlinear_arith)
            requires
                0 <= s[0] < x,
                0 <= e < p,
        ;
    }
}

/// With coefficients that are not negative, a coefficient of `X^j` that is not
/// zero makes the value at least `x^j`.
pub proof fn lemma_eval_at_least(s: Seq<int>, x: int, j: int)
    requires
        x > 0,
        forall|i: int| 0 <= i < s.len() ==> 0 <= s[i],
        0 <= j < s.len(),
        s[j] != 0,
    ensures
        poly_eval(s, x) >= pow(x, j as nat),
    decreases s.len(),
{
    reveal(pow);
    let s1 = s.drop_first();
    lemma_eval_nonnegative(s1, x);
    let e = poly_eval(s1, x);
    if j == 0 {
        assert(s[0] + x * e >= 1) by (nonlinear_arith)
            requires
                s[0] >= 1,
                x > 0,
                e >= 0,
        ;
    } else {
        lemma_eval_at_least(s1, x, j - 1);
        let p = pow(x, (j - 1) as nat);
        assert(pow(x, j as nat) == x * p);
        assert(s[0] + x * e >= x * p) by (nonlinear_arith)
            requires
                s[0] >= 0,
                x > 0,
                e >= p,
        ;
    }
}

/// With coefficients that are not negative, the value at a positive `x` is
/// not negative.
pub proof fn lemma_eval_nonnegative(s: Seq<int>, x: int)
    requires
        x > 0,
        forall|i: int| 0 <= i < s.len() ==> 0 <= s[i],
    ensures
        0 <= poly_eval(s, x),
    decreases s.len(),
{
    if s.len() > 0 {
        lemma_eval_nonnegative(s.drop_first(), x);
        let e = poly_eval(s.drop_first(), x);
        assert(0 <= s[0] + x * e) by (nonlinear_arith)
            requires
                s[0] >= 0,
                x > 0,
                e >= 0,
        ;
    }
}

/// With coefficients in `[0, m]`, each coefficient of the product lies in
/// `[0, |a|·m²]`.
pub proof fn lemma_conv_bounded(a: Seq<int>, b: Seq<int>, m: int, k: int)
    requires
        0 <= m,
        forall|i: int| 0 <= i < a.len() ==> 0 <= #[trigger] a[i] <= m,
        forall|i: int| 0 <= i < b.len() ==> 0 <= #[trigger] b[i] <= m,
    ensures
        0 <= conv(a, b, k) <= a.len() * (m * m),
    decreases a.len(),
{
    if a.len() > 0 {
        let a1 = a.drop_first();
        lemma_conv_bounded(a1, b, m, k - 1);
        let c = coeff(b, k);
        assert(0 <= c <= m);
        assert(0 <= a[0] * c <= m * m) by (nonlinear_arith)
            requires
                0 <= a[0] <= m,
                0 <= c <= m,
        ;
        assert(a.len() * (m * m) == a1.len() * (m * m) + m * m) by (nonlinear_arith)
            requires
                a.len() == a1.len() + 1,
        ;
    } else {
        assert(a.len() * (m * m) == 0) by (nonlinear_arith)
            requires
                a.len() == 0,
        ;
    }
}

/// The absolute value of an integer.
pub open spec fn abs(x: int) -> int {
    if x < 0 {
        -x
    } else {
        x
    }
}

/// The quotient of `v` by `X - x` is small where `v` is: if `x` is a root of
/// `v` and no coefficient of `v` exceeds `m` in absolute value, then
/// `(x - 1)·|q| <= m` for each coefficient `q` of the quotient.
pub proof fn lemma_quotient_bounded(v: Seq<int>, x: int, m: int, k: int)
    requires
        poly_eval(v, x) == 0,
        x >= 2,
        forall|j: int| 0 <= j < v.len() ==> abs(#[trigger] v[j]) <= m,
        0 <= k < root_quotient(v, x).len(),
    ensures
        (x - 1) * abs(root_quotient(v, x)[k]) <= m,
    decreases k,
{
    let q = root_quotient(v, x);
    lemma_root_quotient(v, x, k);
    assert(abs(v[k]) <= m);
    let prev = coeff(q, k - 1);
    if k > 0 {
        lemma_quotient_bounded(v, x, m, k - 1);
        assert(prev == q[k - 1]);
    }
    // x·q[k] = prev - v[k], with (x - 1)·|prev| <= m and |v[k]| <= m
    let qk = q[k];
    assert(x * qk == prev - v[k]);
    assert((x - 1) * abs(prev) <= m) by (nonlinear_arith)
        requires
            k > 0 ==> (x - 1) * abs(prev) <= m,
            k == 0 ==> prev == 0,
            0 <= m,
            abs(prev) == 0 || k > 0,
    ;
    assert((x - 1) * abs(qk) <= m) by (nonlinear_arith)
        requires
            x >= 2,
            x * qk == prev - v[k],
            (x - 1) * abs(prev) <= m,
            abs(v[k]) <= m,
            abs(qk) == (if qk < 0 {
                -qk
            } else {
                qk
            }),
            abs(prev) == (if prev < 0 {
                -prev
            } else {
                prev
            }),
            abs(v[k]) == (if v[k] < 0 {
                -v[k]
            } else {
                v[k]
            }),
    ;
}

} // verus!
