//! Properties that relate several operations of the library.

use vstd::prelude::*;
use vstd::arithmetic::div_mod::*;
use vstd::arithmetic::mul::*;
use crate::math::algebra::{
    add_coeffs, all_below, coeff, is_trimmed, lagrange, lagrange_factor, lagrange_term, lemma_add_coeff,
    lemma_mul_coeff, lemma_mul_coeff_zero, lemma_neg_coeff, lemma_sum_ext, lemma_sum_extend,
    lemma_sum_reverse, lemma_trimmed_ext, lemma_sum_add, lemma_sum_scale, lemma_sum_mod, lemma_sum_single,
    lemma_trim, lemma_add_zero, lemma_mul_trim_left, monomial, monomial_coeffs, eval_term, pad,
    lemma_trim_unique, lemma_trimmed_len_bound, lemma_sum_zero, mul_coeff, mul_term, poly_add,
    poly_eval, poly_mul, poly_neg, poly_sub, sum, trim, degree, lemma_mul_len,
};
use crate::math::evaluation::{
    law_eval_add, lemma_eval_constant, lemma_eval_linear, law_eval_mul, lemma_eval_trim,
};
use crate::math::modular::{gcd, inverse, is_prime, lemma_inverse};

verus! {

/// `((u + w * x) * v) mod p == ((x - y) * t) mod p` when `u == -y`, `w == 1` and `v == t`
/// modulo `p`.
proof fn lemma_linear_times(u: int, w: int, v: int, x: int, y: int, t: int, p: int)
    requires
        p > 0,
        u % p == (-y) % p,
        w % p == 1int % p,
        v % p == t % p,
    ensures
        ((u + w * x) * v) % p == ((x - y) * t) % p,
{
    lemma_mul_mod_noop(u + w * x, v, p);
    lemma_mul_mod_noop(x - y, t, p);
    lemma_add_mod_noop(u, w * x, p);
    lemma_mul_mod_noop_left(w, x, p);
    lemma_mul_mod_noop_left(1, x, p);
    lemma_add_mod_noop(-y, x, p);
    assert(-y + x == x - y);
    lemma_mod_twice(x, p);
}

/// The value of the linear factor `(x - xs[j]) / (xs[i] - xs[j])` at `x`.
proof fn lemma_eval_factor(xs: Seq<nat>, i: int, j: int, x: int, p: nat)
    requires
        p > 0,
        0 <= i < xs.len(),
        0 <= j < xs.len(),
    ensures
        poly_eval(lagrange_factor(xs, i, j, p), x) % (p as int) == ((x - xs[j]) * inverse(
            ((xs[i] as int - xs[j] as int) % (p as int)) as nat,
            p,
        ) as int) % (p as int),
{
    let u = ((-(xs[j] as int)) % (p as int)) as nat;
    let w = 1nat % p;
    let difference = ((xs[i] as int - xs[j] as int) % (p as int)) as nat;
    let t = inverse(difference, p);
    let v = (w * t) % p;
    law_eval_mul(trim(seq![u, w]), trim(seq![v]), x, p);
    lemma_eval_linear(u, w, x);
    lemma_eval_constant(v, x);
    lemma_mod_bound(-(xs[j] as int), p as int);
    lemma_mod_twice(-(xs[j] as int), p as int);
    lemma_mod_twice(1, p as int);
    lemma_mul_mod_noop_left(1, t as int, p as int);
    lemma_mod_twice(t as int, p as int);
    lemma_linear_times(u as int, w as int, v as int, x, xs[j] as int, t as int, p as int);
}

/// Each term `i` of the interpolation polynomial vanishes at the points `xs[k]`, `k != i`,
/// whose factors it has taken.
proof fn lemma_term_vanishes(xs: Seq<nat>, ys: Seq<nat>, i: int, k: int, m: nat, p: nat)
    requires
        p > 0,
        all_below(xs, p),
        m <= xs.len(),
        ys.len() <= xs.len(),
        0 <= i < ys.len(),
        0 <= k < m,
        i != k,
    ensures
        poly_eval(lagrange_term(xs, ys, i, m, p), xs[k] as int) % (p as int) == 0,
    decreases m,
{
    let j = m - 1;
    let prev = lagrange_term(xs, ys, i, (m - 1) as nat, p);
    if j == i {
        lemma_term_vanishes(xs, ys, i, k, (m - 1) as nat, p);
    } else {
        let factor = lagrange_factor(xs, i, j, p);
        law_eval_mul(prev, factor, xs[k] as int, p);
        let ep = poly_eval(prev, xs[k] as int);
        let ef = poly_eval(factor, xs[k] as int);
        lemma_mul_mod_noop(ep, ef, p as int);
        if k < j {
            lemma_term_vanishes(xs, ys, i, k, (m - 1) as nat, p);
        } else {
            lemma_eval_factor(xs, i, j, xs[k] as int, p);
            assert(xs[k] as int - xs[j] as int == 0);
            lemma_small_mod(0, p);
        }
        assert((ep % (p as int)) * (ef % (p as int)) == 0) by (nonlinear_arith)
            requires
                ep % (p as int) == 0 || ef % (p as int) == 0,
        ;
        lemma_small_mod(0, p);
        assert(lagrange_term(xs, ys, i, m, p) == poly_mul(prev, factor, p));
        assert(poly_eval(poly_mul(prev, factor, p), xs[k] as int) % (p as int) == (ep * ef) % (p as int));
    }
}

/// Term `k` of the interpolation polynomial takes the value `ys[k]` at `xs[k]`.
proof fn lemma_term_at_point(xs: Seq<nat>, ys: Seq<nat>, k: int, m: nat, p: nat)
    requires
        p > 0,
        all_below(xs, p),
        all_below(ys, p),
        m <= xs.len(),
        0 <= k < ys.len(),
        k < xs.len(),
        forall|j: int|
            0 <= j < xs.len() && j != k ==> gcd(p, #[trigger] ((xs[k] as int - xs[j] as int) % (p as int)) as nat)
                == 1,
    ensures
        poly_eval(lagrange_term(xs, ys, k, m, p), xs[k] as int) % (p as int) == ys[k] as int,
    decreases m,
{
    lemma_small_mod(ys[k], p);
    if m == 0 {
        lemma_eval_constant(ys[k], xs[k] as int);
    } else {
        let j = m - 1;
        let prev = lagrange_term(xs, ys, k, (m - 1) as nat, p);
        lemma_term_at_point(xs, ys, k, (m - 1) as nat, p);
        if j != k {
            let factor = lagrange_factor(xs, k, j, p);
            let x = xs[k] as int;
            law_eval_mul(prev, factor, x, p);
            lemma_eval_factor(xs, k, j, x, p);
            let difference = ((x - xs[j] as int) % (p as int)) as nat;
            let t = inverse(difference, p);
            assert(gcd(p, difference) == 1);
            lemma_mod_bound(x - xs[j] as int, p as int);
            if difference == 0 {
                assert(gcd(p, 0) == p);
                assert(p == 1);
                lemma_mod_bound(poly_eval(lagrange_term(xs, ys, k, m, p), x), p as int);
            } else {
                lemma_inverse(difference, p);
                lemma_mul_mod_noop_left(x - xs[j] as int, t as int, p as int);
                let ep = poly_eval(prev, x);
                let ef = poly_eval(factor, x);
                lemma_mul_mod_noop(ep, ef, p as int);
                assert((ys[k] as int) * 1 == ys[k] as int);
            }
        }
    }
}

/// The value of the partial sum of the interpolation terms at `xs[k]`: `ys[k]` once term `k`
/// is in the sum, zero before.
proof fn lemma_lagrange_at_point(xs: Seq<nat>, ys: Seq<nat>, k: int, n: nat, p: nat)
    requires
        p > 0,
        all_below(xs, p),
        all_below(ys, p),
        n <= ys.len(),
        ys.len() <= xs.len(),
        0 <= k < ys.len(),
        forall|j: int|
            0 <= j < xs.len() && j != k ==> gcd(p, #[trigger] ((xs[k] as int - xs[j] as int) % (p as int)) as nat)
                == 1,
    ensures
        poly_eval(lagrange(xs, ys, n, p), xs[k] as int) % (p as int) == if k < n {
            ys[k] as int
        } else {
            0
        },
    decreases n,
{
    let x = xs[k] as int;
    if n == 0 {
        lemma_small_mod(0, p);
    } else {
        let i = n - 1;
        let prev = lagrange(xs, ys, (n - 1) as nat, p);
        let term = lagrange_term(xs, ys, i, xs.len(), p);
        lemma_lagrange_at_point(xs, ys, k, (n - 1) as nat, p);
        law_eval_add(prev, term, x, p);
        lemma_add_mod_noop(poly_eval(prev, x), poly_eval(term, x), p as int);
        if i == k {
            lemma_term_at_point(xs, ys, k, xs.len(), p);
        } else {
            lemma_term_vanishes(xs, ys, i, k, xs.len(), p);
        }
        lemma_small_mod(ys[k], p);
        lemma_small_mod(0, p);
    }
}

/// Interpolation: the interpolation polynomial through the points `(xs[i], ys[i])`, `i <
/// ys.len()`, takes the value `ys[k]` at `xs[k]`, provided that each difference
/// `xs[k] - xs[j]` (`j != k`) is invertible modulo `p` (for a prime `p`: `xs[k]` differs
/// from the other points).
pub proof fn law_interpolation(xs: Seq<nat>, ys: Seq<nat>, k: int, p: nat)
    requires
        p > 0,
        all_below(xs, p),
        all_below(ys, p),
        ys.len() <= xs.len(),
        0 <= k < ys.len(),
        forall|j: int|
            0 <= j < xs.len() && j != k ==> gcd(p, #[trigger] ((xs[k] as int - xs[j] as int) % (p as int)) as nat)
                == 1,
    ensures
        poly_eval(lagrange(xs, ys, ys.len(), p), xs[k] as int) % (p as int) == ys[k] as int,
{
    lemma_lagrange_at_point(xs, ys, k, ys.len(), p);
}

/// Interpolation over a prime field: with pairwise distinct points `xs`, the interpolation
/// polynomial takes the value `ys[k]` at each `xs[k]`, `k < ys.len()`.
pub proof fn law_interpolation_prime(xs: Seq<nat>, ys: Seq<nat>, p: nat)
    requires
        is_prime(p),
        all_below(xs, p),
        all_below(ys, p),
        ys.len() <= xs.len(),
        forall|i: int, j: int| 0 <= i < xs.len() && 0 <= j < xs.len() && i != j ==> xs[i] != xs[j],
    ensures
        forall|k: int|
            0 <= k < ys.len() ==> poly_eval(lagrange(xs, ys, ys.len(), p), #[trigger] xs[k] as int) % (p as int)
                == ys[k] as int,
{
    assert forall|k: int| 0 <= k < ys.len() implies poly_eval(
        lagrange(xs, ys, ys.len(), p),
        #[trigger] xs[k] as int,
    ) % (p as int) == ys[k] as int by {
        assert forall|j: int| 0 <= j < xs.len() && j != k implies gcd(
            p,
            #[trigger] ((xs[k] as int - xs[j] as int) % (p as int)) as nat,
        ) == 1 by {
            let d = ((xs[k] as int - xs[j] as int) % (p as int)) as nat;
            lemma_mod_bound(xs[k] as int - xs[j] as int, p as int);
            if d == 0 {
                // xs[k] and xs[j] are residues below p with difference divisible by p
                lemma_fundamental_div_mod(xs[k] as int - xs[j] as int, p as int);
                assert(xs[k] == xs[j]) by (nonlinear_arith)
                    requires
                        xs[k] < p,
                        xs[j] < p,
                        xs[k] as int - xs[j] as int == (p as int) * ((xs[k] as int - xs[j] as int) / (p as int)),
                ;
            }
            crate::math::modular::lemma_prime_coprime(p, d);
        }
        law_interpolation(xs, ys, k, p);
    }
}

/// Addition is commutative: `a + b == b + a`.
pub proof fn law_add_commutative(a: Seq<nat>, b: Seq<nat>, p: nat)
    ensures
        poly_add(a, b, p) == poly_add(b, a, p),
{
    assert(add_coeffs(a, b, p) =~= add_coeffs(b, a, p));
}

/// A polynomial minus itself is the zero polynomial: `a - a == 0`.
pub proof fn law_sub_self(a: Seq<nat>, p: nat)
    requires
        p > 0,
        all_below(a, p),
    ensures
        poly_sub(a, a, p) == Seq::<nat>::empty(),
{
    lemma_neg_coeff(a, p);
    lemma_add_coeff(a, poly_neg(a, p), p);
    assert forall|i: int| #[trigger] coeff(poly_sub(a, a, p), i) == 0 by {
        let c = coeff(a, i) as int;
        if 0 <= i < a.len() {
            assert(a[i] < p);
        }
        lemma_add_mod_noop_right(c, -c, p as int);
        lemma_small_mod(0, p);
    }
    lemma_trimmed_len_bound(poly_sub(a, a, p), 0);
}

/// Product coefficient `k` as a sum over the first `k + 1` indices.
proof fn lemma_mul_coeff_upto(a: Seq<nat>, b: Seq<nat>, k: int)
    requires
        k >= 0,
    ensures
        mul_coeff(a, b, k) == sum(mul_term(a, b, k), (k + 1) as nat),
{
    let f = mul_term(a, b, k);
    let big = if b.len() >= k + 1 { b.len() } else { (k + 1) as nat };
    assert forall|i: int| b.len() <= i < big implies #[trigger] f(i) == 0 by {
        assert(coeff(b, i) == 0);
    }
    lemma_sum_extend(f, b.len(), big);
    assert forall|i: int| k + 1 <= i < big implies #[trigger] f(i) == 0 by {
        assert(coeff(a, k - i) == 0);
    }
    lemma_sum_extend(f, (k + 1) as nat, big);
}

/// Multiplication is commutative: `a * b == b * a`.
pub proof fn law_mul_commutative(a: Seq<nat>, b: Seq<nat>, p: nat)
    requires
        p > 0,
    ensures
        poly_mul(a, b, p) == poly_mul(b, a, p),
{
    assert forall|k: int| mul_coeff(a, b, k) == #[trigger] mul_coeff(b, a, k) by {
        if k < 0 {
            lemma_mul_coeff_zero(a, b, k);
            lemma_mul_coeff_zero(b, a, k);
        } else {
            lemma_mul_coeff_upto(a, b, k);
            lemma_mul_coeff_upto(b, a, k);
            let f = mul_term(a, b, k);
            lemma_sum_reverse(f, (k + 1) as nat);
            assert forall|i: int| 0 <= i < k + 1 implies #[trigger] mul_term(b, a, k)(i) == f(k + 1 - 1 - i) by {
                lemma_mul_is_commutative(coeff(a, i) as int, coeff(b, k - i) as int);
            }
            lemma_sum_ext(mul_term(b, a, k), |i: int| f(k + 1 - 1 - i), (k + 1) as nat);
        }
    }
    lemma_mul_coeff(a, b, p);
    lemma_mul_coeff(b, a, p);
    assert forall|k: int| #[trigger] coeff(poly_mul(a, b, p), k) == coeff(poly_mul(b, a, p), k) by {
        assert(mul_coeff(a, b, k) == mul_coeff(b, a, k));
    }
    lemma_trimmed_ext(poly_mul(a, b, p), poly_mul(b, a, p));
}

/// Coefficient `m` of `(q1 - q2) * d` is congruent to the difference of the coefficients of
/// `q1 * d` and `q2 * d`.
proof fn lemma_mul_coeff_sub(q1: Seq<nat>, q2: Seq<nat>, d: Seq<nat>, m: int, p: nat)
    requires
        p > 0,
    ensures
        mul_coeff(poly_sub(q1, q2, p), d, m) % (p as int) == (mul_coeff(q1, d, m) - mul_coeff(q2, d, m)) % (
        p as int),
{
    let e = poly_sub(q1, q2, p);
    let neg = poly_neg(q2, p);
    lemma_neg_coeff(q2, p);
    lemma_add_coeff(q1, neg, p);
    let f1 = mul_term(q1, d, m);
    let f2 = mul_term(q2, d, m);
    let minus_f2 = |t: int| -1 * f2(t);
    let diff = |t: int| f1(t) + minus_f2(t);
    lemma_sum_scale(f2, -1, d.len());
    lemma_sum_add(f1, minus_f2, d.len());
    assert forall|t: int| 0 <= t < d.len() implies #[trigger] mul_term(e, d, m)(t) % (p as int) == diff(t) % (
    p as int) by {
        let x = m - t;
        let a = coeff(q1, x) as int;
        let b = coeff(q2, x) as int;
        let dt = coeff(d, t) as int;
        lemma_add_mod_noop_right(a, -b, p as int);
        lemma_mod_twice(a - b, p as int);
        lemma_mul_mod_noop_left(coeff(e, x) as int, dt, p as int);
        lemma_mul_mod_noop_left(a - b, dt, p as int);
        assert((a - b) * dt == a * dt + -1 * (b * dt)) by (nonlinear_arith);
    }
    lemma_sum_mod(mul_term(e, d, m), diff, d.len(), p as int);
}

/// The last coefficient of a product is the product of the last coefficients.
proof fn lemma_mul_coeff_top(e: Seq<nat>, d: Seq<nat>)
    requires
        e.len() > 0,
        d.len() > 0,
    ensures
        mul_coeff(e, d, e.len() + d.len() - 2) == e.last() as int * d.last() as int,
{
    let m = e.len() + d.len() - 2;
    let f = mul_term(e, d, m);
    assert forall|t: int| 0 <= t < d.len() && t != d.len() - 1 implies #[trigger] f(t) == 0 by {
        assert(coeff(e, m - t) == 0);
    }
    lemma_sum_single(f, d.len(), d.len() - 1);
}

/// Division is unique: two quotient-remainder pairs of the same polynomial by a divisor
/// whose last coefficient is invertible, with remainders shorter than the divisor, are equal.
pub proof fn law_division_unique(
    q1: Seq<nat>,
    r1: Seq<nat>,
    q2: Seq<nat>,
    r2: Seq<nat>,
    d: Seq<nat>,
    p: nat,
)
    requires
        p > 0,
        all_below(q1, p),
        all_below(q2, p),
        all_below(r1, p),
        all_below(r2, p),
        all_below(d, p),
        is_trimmed(q1),
        is_trimmed(q2),
        is_trimmed(r1),
        is_trimmed(r2),
        d.len() > 0,
        gcd(p, d.last()) == 1,
        r1.len() < d.len(),
        r2.len() < d.len(),
        poly_add(poly_mul(q1, d, p), r1, p) == poly_add(poly_mul(q2, d, p), r2, p),
    ensures
        q1 == q2,
        r1 == r2,
{
    let pi = p as int;
    let lhs = poly_add(poly_mul(q1, d, p), r1, p);
    lemma_mul_coeff(q1, d, p);
    lemma_mul_coeff(q2, d, p);
    lemma_add_coeff(poly_mul(q1, d, p), r1, p);
    lemma_add_coeff(poly_mul(q2, d, p), r2, p);
    if p == 1 {
        if q1.len() > 0 {
            assert(q1.last() < 1);
        }
        if q2.len() > 0 {
            assert(q2.last() < 1);
        }
        if r1.len() > 0 {
            assert(r1.last() < 1);
        }
        if r2.len() > 0 {
            assert(r2.last() < 1);
        }
        assert(q1 =~= q2);
        assert(r1 =~= r2);
    } else {
        // For high coefficients the remainders vanish, so the products agree there.
        assert forall|m: int| m >= d.len() - 1 implies #[trigger] (mul_coeff(q1, d, m) - mul_coeff(q2, d, m)) % pi
            == 0 by {
            let rhs = poly_add(poly_mul(q2, d, p), r2, p);
            assert(coeff(lhs, m) == coeff(rhs, m));
            assert(coeff(r1, m) == 0 && coeff(r2, m) == 0);
            let c1 = coeff(poly_mul(q1, d, p), m);
            let c2 = coeff(poly_mul(q2, d, p), m);
            assert(c1 as int == mul_coeff(q1, d, m) % pi);
            assert(c2 as int == mul_coeff(q2, d, m) % pi);
            assert(coeff(lhs, m) == (c1 + 0) % p);
            assert(coeff(rhs, m) == (c2 + 0) % p);
            lemma_mod_bound(mul_coeff(q1, d, m), pi);
            lemma_mod_bound(mul_coeff(q2, d, m), pi);
            lemma_small_mod((mul_coeff(q1, d, m) % pi) as nat, p);
            lemma_small_mod((mul_coeff(q2, d, m) % pi) as nat, p);
            assert(c1 == c2);
            lemma_sub_mod_noop(mul_coeff(q1, d, m), mul_coeff(q2, d, m), pi);
            lemma_small_mod(0, p);
        }
        let e = poly_sub(q1, q2, p);
        lemma_neg_coeff(q2, p);
        lemma_add_coeff(q1, poly_neg(q2, p), p);
        if e.len() > 0 {
            let top = e.len() + d.len() - 2;
            lemma_mul_coeff_top(e, d);
            lemma_mul_coeff_sub(q1, q2, d, top, p);
            let et = e.last() as int;
            let dt = d.last() as int;
            assert(d.last() != 0) by {
                if d.last() == 0 {
                    assert(gcd(p, 0) == p);
                }
            }
            crate::math::modular::lemma_inverse(d.last(), p);
            let t = inverse(d.last(), p) as int;
            // e_top == e_top * (d_top * t) == (e_top * d_top) * t == 0 modulo p
            lemma_mul_mod_noop_left(et * dt, t, pi);
            lemma_mul_mod_noop_right(et, dt * t, pi);
            assert(et * dt * t == et * (dt * t)) by (nonlinear_arith);
            assert(et * 1 == et);
            lemma_small_mod(e.last(), p);
            lemma_small_mod(0, p);
            assert(0 * t == 0);
        }
        assert forall|x: int| #[trigger] coeff(q1, x) == coeff(q2, x) by {
            let a = coeff(q1, x) as int;
            let b = coeff(q2, x) as int;
            assert(coeff(e, x) == 0);
            lemma_add_mod_noop_right(a, -b, pi);
            if 0 <= x < q1.len() {
                assert(q1[x] < p);
            }
            if 0 <= x < q2.len() {
                assert(q2[x] < p);
            }
            lemma_fundamental_div_mod(a - b, pi);
            assert(a == b) by (nonlinear_arith)
                requires
                    0 <= a < pi,
                    0 <= b < pi,
                    (a - b) % pi == 0,
                    a - b == pi * ((a - b) / pi) + (a - b) % pi,
            ;
        }
        lemma_trimmed_ext(q1, q2);
        assert forall|x: int| #[trigger] coeff(r1, x) == coeff(r2, x) by {
            let rhs = poly_add(poly_mul(q2, d, p), r2, p);
            assert(coeff(lhs, x) == coeff(rhs, x));
            let mm = (mul_coeff(q1, d, x) % pi);
            assert(coeff(poly_mul(q2, d, p), x) as int == mm);
            let a = coeff(r1, x) as int;
            let b = coeff(r2, x) as int;
            if 0 <= x < r1.len() {
                assert(r1[x] < p);
            }
            if 0 <= x < r2.len() {
                assert(r2[x] < p);
            }
            assert(coeff(lhs, x) as int == (mm + a) % pi);
            assert(coeff(rhs, x) as int == (mm + b) % pi);
            lemma_sub_mod_noop(mm + a, mm + b, pi);
            assert(mm + a - (mm + b) == a - b);
            lemma_small_mod(0, p);
            lemma_fundamental_div_mod(a - b, pi);
            assert(a == b) by (nonlinear_arith)
                requires
                    0 <= a < pi,
                    0 <= b < pi,
                    (a - b) % pi == 0,
                    a - b == pi * ((a - b) / pi) + (a - b) % pi,
            ;
        }
        lemma_trimmed_ext(r1, r2);
    }
}

/// Dividing a product by one of its factors (with invertible last coefficient) gives back
/// the other factor, with no remainder: any quotient and remainder that long division may
/// return for `a * b` and `b` are `a` (trimmed) and zero.
pub proof fn law_division_of_product(a: Seq<nat>, b: Seq<nat>, q: Seq<nat>, r: Seq<nat>, p: nat)
    requires
        p > 0,
        all_below(a, p),
        all_below(b, p),
        all_below(q, p),
        all_below(r, p),
        is_trimmed(q),
        is_trimmed(r),
        b.len() > 0,
        gcd(p, b.last()) == 1,
        r.len() < b.len(),
        poly_add(poly_mul(q, b, p), r, p) == trim(poly_mul(a, b, p)),
    ensures
        q == trim(a),
        r == Seq::<nat>::empty(),
{
    let product = poly_mul(a, b, p);
    lemma_mul_coeff(a, b, p);
    lemma_mul_coeff(trim(a), b, p);
    lemma_trim(a);
    lemma_trim(product);
    lemma_mul_trim_left(a, b, p);
    lemma_add_zero(product, p);
    law_add_commutative(product, Seq::<nat>::empty(), p);
    crate::math::algebra::lemma_trim_below(a, p);
    law_division_unique(q, r, trim(a), Seq::<nat>::empty(), b, p);
}

/// The value of the monomial `c * x^d` at `x` is `c * x^d`.
pub proof fn law_eval_monomial(c: nat, d: nat, x: int)
    ensures
        poly_eval(monomial(c, d), x) == c as int * vstd::arithmetic::power::pow(x, d),
{
    let s = monomial_coeffs(c, d);
    lemma_eval_trim(s, x);
    let f = eval_term(s, x);
    assert forall|i: int| 0 <= i < d + 1 && i != d implies #[trigger] f(i) == 0 by {
        assert(coeff(s, i) == 0);
    }
    lemma_sum_single(f, d + 1, d as int);
}

/// Padding with zero coefficients does not change the polynomial.
pub proof fn law_pad_same_polynomial(a: Seq<nat>, n: nat)
    requires
        n >= a.len(),
    ensures
        trim(pad(a, n)) == trim(a),
{
    lemma_trim(a);
    lemma_trim(pad(a, n));
    lemma_trim_unique(pad(a, n), trim(a));
}

/// Negating twice gives the polynomial back: `-(-a) == a`.
pub proof fn law_neg_involutive(a: Seq<nat>, p: nat)
    requires
        p > 0,
        all_below(a, p),
    ensures
        poly_neg(poly_neg(a, p), p) == trim(a),
{
    lemma_neg_coeff(a, p);
    lemma_neg_coeff(poly_neg(a, p), p);
    lemma_trim(a);
    assert forall|i: int| #[trigger] coeff(poly_neg(poly_neg(a, p), p), i) == coeff(trim(a), i) by {
        let c = coeff(a, i) as int;
        if 0 <= i < a.len() {
            assert(a[i] < p);
        }
        lemma_sub_mod_noop_right(0, -c, p as int);
        lemma_small_mod(c as nat, p);
    }
    lemma_trimmed_ext(poly_neg(poly_neg(a, p), p), trim(a));
}

/// Addition is associative: `(a + b) + c == a + (b + c)`.
pub proof fn law_add_associative(a: Seq<nat>, b: Seq<nat>, c: Seq<nat>, p: nat)
    requires
        p > 0,
    ensures
        poly_add(poly_add(a, b, p), c, p) == poly_add(a, poly_add(b, c, p), p),
{
    let ab = poly_add(a, b, p);
    let bc = poly_add(b, c, p);
    lemma_add_coeff(a, b, p);
    lemma_add_coeff(b, c, p);
    lemma_add_coeff(ab, c, p);
    lemma_add_coeff(a, bc, p);
    assert forall|i: int| #[trigger] coeff(poly_add(ab, c, p), i) == coeff(poly_add(a, bc, p), i) by {
        let x = coeff(a, i) as int;
        let y = coeff(b, i) as int;
        let z = coeff(c, i) as int;
        lemma_add_mod_noop_right(z, x + y, p as int);
        lemma_add_mod_noop_right(x, y + z, p as int);
        assert(z + (x + y) == x + (y + z));
    }
    lemma_trimmed_ext(poly_add(ab, c, p), poly_add(a, bc, p));
}

/// The zero polynomial is neutral for addition: `a + 0 == a` (trimmed).
pub proof fn law_add_identity(a: Seq<nat>, p: nat)
    requires
        p > 0,
        all_below(a, p),
    ensures
        poly_add(a, Seq::<nat>::empty(), p) == trim(a),
        poly_add(Seq::<nat>::empty(), a, p) == trim(a),
{
    lemma_add_zero(a, p);
    law_add_commutative(a, Seq::<nat>::empty(), p);
}

/// Subtracting and adding back gives the polynomial back: `(a - b) + b == a` (trimmed).
pub proof fn law_sub_add(a: Seq<nat>, b: Seq<nat>, p: nat)
    requires
        p > 0,
        all_below(a, p),
    ensures
        poly_add(poly_sub(a, b, p), b, p) == trim(a),
{
    let neg = poly_neg(b, p);
    let d = poly_sub(a, b, p);
    lemma_neg_coeff(b, p);
    lemma_add_coeff(a, neg, p);
    lemma_add_coeff(d, b, p);
    lemma_trim(a);
    assert forall|i: int| #[trigger] coeff(poly_add(d, b, p), i) == coeff(trim(a), i) by {
        let x = coeff(a, i) as int;
        let y = coeff(b, i) as int;
        if 0 <= i < a.len() {
            assert(a[i] < p);
        }
        lemma_add_mod_noop_right(x, -y, p as int);
        lemma_add_mod_noop_right(y, x - y, p as int);
        assert(y + (x - y) == x);
        lemma_small_mod(x as nat, p);
    }
    lemma_trimmed_ext(poly_add(d, b, p), trim(a));
}

/// Multiplication distributes over addition: `a * (b + c) == a * b + a * c`.
pub proof fn law_mul_distributive(a: Seq<nat>, b: Seq<nat>, c: Seq<nat>, p: nat)
    requires
        p > 0,
    ensures
        poly_mul(a, poly_add(b, c, p), p) == poly_add(poly_mul(a, b, p), poly_mul(a, c, p), p),
{
    let pi = p as int;
    let bc = poly_add(b, c, p);
    let lhs = poly_mul(a, bc, p);
    let rhs = poly_add(poly_mul(a, b, p), poly_mul(a, c, p), p);
    lemma_add_coeff(b, c, p);
    lemma_mul_coeff(a, bc, p);
    lemma_mul_coeff(a, b, p);
    lemma_mul_coeff(a, c, p);
    lemma_add_coeff(poly_mul(a, b, p), poly_mul(a, c, p), p);
    assert forall|k: int| #[trigger] coeff(lhs, k) == coeff(rhs, k) by {
        let mb = mul_coeff(a, b, k);
        let mc = mul_coeff(a, c, k);
        if k < 0 {
            lemma_mul_coeff_zero(a, bc, k);
            lemma_mul_coeff_zero(a, b, k);
            lemma_mul_coeff_zero(a, c, k);
            lemma_small_mod(0, p);
        } else {
            let n = (k + 1) as nat;
            lemma_mul_coeff_upto(a, bc, k);
            lemma_mul_coeff_upto(a, b, k);
            lemma_mul_coeff_upto(a, c, k);
            let both = |i: int| mul_term(a, b, k)(i) + mul_term(a, c, k)(i);
            assert forall|i: int| 0 <= i < n implies #[trigger] mul_term(a, bc, k)(i) % pi == both(i) % pi by {
                let x = coeff(a, k - i) as int;
                let y = coeff(b, i) as int;
                let z = coeff(c, i) as int;
                lemma_mul_mod_noop_right(x, y + z, pi);
                lemma_mul_is_distributive_add(x, y, z);
            }
            lemma_sum_mod(mul_term(a, bc, k), both, n, pi);
            lemma_sum_add(mul_term(a, b, k), mul_term(a, c, k), n);
            lemma_add_mod_noop(mb, mc, pi);
        }
    }
    lemma_trimmed_ext(lhs, rhs);
}

/// The constant polynomial one is neutral for multiplication: `a * 1 == a` (trimmed).
pub proof fn law_mul_one(a: Seq<nat>, p: nat)
    requires
        p > 0,
        all_below(a, p),
    ensures
        poly_mul(a, trim(seq![1nat % p]), p) == trim(a),
{
    let one = trim(seq![1nat % p]);
    lemma_trim(a);
    lemma_trim(seq![1nat % p]);
    lemma_mul_coeff(a, one, p);
    if p == 1 {
        assert(one.len() == 0) by {
            if one.len() > 0 {
                assert(one[0] == seq![1nat % p][0]);
            }
        }
        assert forall|i: int| #[trigger] coeff(trim(a), i) == 0 by {
            if 0 <= i < a.len() {
                assert(a[i] < 1);
            }
        }
        lemma_trimmed_len_bound(trim(a), 0);
        assert(poly_mul(a, one, p) =~= trim(a));
    } else {
        lemma_small_mod(1, p);
        assert(one =~= seq![1nat]);
        assert forall|k: int| #[trigger] coeff(poly_mul(a, one, p), k) == coeff(trim(a), k) by {
            let f = mul_term(a, one, k);
            assert(sum(f, 1) == sum(f, 0) + f(0));
            assert(coeff(one, 0) == 1);
            assert(f(0) == coeff(a, k) as int * 1);
            assert(mul_coeff(a, one, k) == coeff(a, k) as int);
            assert(coeff(trim(a), k) == coeff(a, k));
            if 0 <= k < a.len() {
                assert(a[k] < p);
                lemma_small_mod(a[k], p);
            } else {
                lemma_small_mod(0, p);
            }
        }
        lemma_trimmed_ext(poly_mul(a, one, p), trim(a));
    }
}

/// Every operation of the model yields a trimmed polynomial: no trailing zero coefficient.
pub proof fn law_results_trimmed(
    a: Seq<nat>,
    b: Seq<nat>,
    c: nat,
    d: nat,
    xs: Seq<nat>,
    ys: Seq<nat>,
    n: nat,
    p: nat,
)
    requires
        p > 0,
    ensures
        is_trimmed(trim(a)),
        is_trimmed(poly_add(a, b, p)),
        is_trimmed(poly_neg(a, p)),
        is_trimmed(poly_sub(a, b, p)),
        is_trimmed(poly_mul(a, b, p)),
        is_trimmed(monomial(c, d)),
        is_trimmed(lagrange(xs, ys, n, p)),
{
    lemma_trim(a);
    lemma_add_coeff(a, b, p);
    lemma_neg_coeff(a, p);
    lemma_neg_coeff(b, p);
    lemma_add_coeff(a, poly_neg(b, p), p);
    lemma_mul_coeff(a, b, p);
    crate::math::algebra::lemma_monomial_coeff(c, d);
    if n > 0 {
        lemma_add_coeff(lagrange(xs, ys, (n - 1) as nat, p), lagrange_term(xs, ys, n - 1, xs.len(), p), p);
    }
}

/// Re-indexing a sum by a shift of `n`, for a function that vanishes on negative indices.
proof fn lemma_sum_shift(h: spec_fn(int) -> int, n: nat, m: nat)
    requires
        m >= n,
        forall|i: int| i < 0 ==> #[trigger] h(i) == 0,
    ensures
        sum(|u: int| h(u - n), m) == sum(h, (m - n) as nat),
    decreases m,
{
    let g = |u: int| h(u - n);
    if m == n {
        assert forall|u: int| 0 <= u < m implies #[trigger] g(u) == 0 by {
            assert(h(u - n) == 0);
        }
        lemma_sum_zero(g, m);
    } else {
        lemma_sum_shift(h, n, (m - 1) as nat);
        assert(sum(g, m) == sum(g, (m - 1) as nat) + g(m - 1));
        assert(sum(h, (m - n) as nat) == sum(h, (m - 1 - n) as nat) + h(m - 1 - n));
    }
}

/// A product coefficient with the last coefficient of the second factor split off.
proof fn lemma_mul_coeff_last(b: Seq<nat>, c: Seq<nat>, u: int)
    requires
        c.len() > 0,
    ensures
        mul_coeff(b, c, u) == mul_coeff(b, c.drop_last(), u) + coeff(b, u - (c.len() - 1)) as int
            * c.last() as int,
{
    let n = (c.len() - 1) as nat;
    let c0 = c.drop_last();
    assert forall|t: int| 0 <= t < n implies #[trigger] mul_term(b, c, u)(t) == mul_term(b, c0, u)(t) by {
        assert(coeff(c, t) == coeff(c0, t));
    }
    lemma_sum_ext(mul_term(b, c, u), mul_term(b, c0, u), n);
    assert(sum(mul_term(b, c, u), n + 1) == sum(mul_term(b, c, u), n) + mul_term(b, c, u)(n as int));
}

/// The terms `t |-> (a * b)[k - t] * c[t]` of coefficient `k` of `(a * b) * c` over the integers.
spec fn left_term(a: Seq<nat>, b: Seq<nat>, c: Seq<nat>, k: int) -> spec_fn(int) -> int {
    |t: int| mul_coeff(a, b, k - t) * coeff(c, t) as int
}

/// The terms `u |-> a[k - u] * (b * c)[u]` of coefficient `k` of `a * (b * c)` over the integers.
spec fn right_term(a: Seq<nat>, b: Seq<nat>, c: Seq<nat>, k: int) -> spec_fn(int) -> int {
    |u: int| coeff(a, k - u) as int * mul_coeff(b, c, u)
}

/// Over the integers, coefficient `k` of `(a * b) * c` equals coefficient `k` of `a * (b * c)`.
proof fn lemma_triple_product(a: Seq<nat>, b: Seq<nat>, c: Seq<nat>, k: int)
    requires
        k >= 0,
    ensures
        sum(left_term(a, b, c, k), c.len()) == sum(right_term(a, b, c, k), (k + 1) as nat),
    decreases c.len(),
{
    let m = (k + 1) as nat;
    if c.len() == 0 {
        assert forall|u: int| 0 <= u < m implies #[trigger] right_term(a, b, c, k)(u) == 0 by {
            assert(mul_coeff(b, c, u) == 0);
            lemma_mul_by_zero_is_zero(coeff(a, k - u) as int);
        }
        lemma_sum_zero(right_term(a, b, c, k), m);
    } else {
        let n = (c.len() - 1) as nat;
        let c0 = c.drop_last();
        let z = c.last() as int;
        lemma_triple_product(a, b, c0, k);
        // the left side gains (a * b)[k - n] * z
        assert forall|t: int| 0 <= t < n implies #[trigger] left_term(a, b, c, k)(t) == left_term(a, b, c0, k)(t) by {
            assert(coeff(c, t) == coeff(c0, t));
        }
        lemma_sum_ext(left_term(a, b, c, k), left_term(a, b, c0, k), n);
        assert(sum(left_term(a, b, c, k), n + 1) == sum(left_term(a, b, c, k), n) + left_term(a, b, c, k)(
            n as int,
        ));
        // the right side gains z * sum_u a[k - u] * b[u - n]
        let sh = |u: int| coeff(a, k - u) as int * coeff(b, u - n) as int;
        let zs = |u: int| z * sh(u);
        let both = |u: int| right_term(a, b, c0, k)(u) + zs(u);
        assert forall|u: int| 0 <= u < m implies #[trigger] right_term(a, b, c, k)(u) == both(u) by {
            lemma_mul_coeff_last(b, c, u);
            let x = coeff(a, k - u) as int;
            let y = coeff(b, u - n) as int;
            let m0 = mul_coeff(b, c0, u);
            assert(x * (m0 + y * z) == x * m0 + z * (x * y)) by (nonlinear_arith);
        }
        lemma_sum_ext(right_term(a, b, c, k), both, m);
        lemma_sum_add(right_term(a, b, c0, k), zs, m);
        lemma_sum_scale(sh, z, m);
        if k >= n {
            let h = mul_term(a, b, k - n);
            assert forall|i: int| i < 0 implies #[trigger] h(i) == 0 by {
                assert(coeff(b, i) == 0);
                lemma_mul_by_zero_is_zero(coeff(a, k - n - i) as int);
            }
            lemma_sum_shift(h, n, m);
            assert forall|u: int| 0 <= u < m implies #[trigger] sh(u) == (|v: int| h(v - n))(u) by {
                assert(k - n - (u - n) == k - u);
            }
            lemma_sum_ext(sh, |v: int| h(v - n), m);
            lemma_mul_coeff_upto(a, b, k - n);
            assert((m - n) as nat == (k - n + 1) as nat);
        } else {
            assert forall|u: int| 0 <= u < m implies #[trigger] sh(u) == 0 by {
                assert(coeff(b, u - n) == 0);
                lemma_mul_by_zero_is_zero(coeff(a, k - u) as int);
            }
            lemma_sum_zero(sh, m);
            lemma_mul_coeff_zero(a, b, k - n);
        }
        assert(left_term(a, b, c, k)(n as int) == mul_coeff(a, b, k - n) * z);
        lemma_mul_is_commutative(mul_coeff(a, b, k - n), z);
    }
}

/// Multiplication is associative: `(a * b) * c == a * (b * c)`.
pub proof fn law_mul_associative(a: Seq<nat>, b: Seq<nat>, c: Seq<nat>, p: nat)
    requires
        p > 0,
    ensures
        poly_mul(poly_mul(a, b, p), c, p) == poly_mul(a, poly_mul(b, c, p), p),
{
    let pi = p as int;
    let ab = poly_mul(a, b, p);
    let bc = poly_mul(b, c, p);
    let lhs = poly_mul(ab, c, p);
    let rhs = poly_mul(a, bc, p);
    lemma_mul_coeff(a, b, p);
    lemma_mul_coeff(b, c, p);
    lemma_mul_coeff(ab, c, p);
    lemma_mul_coeff(a, bc, p);
    assert forall|k: int| #[trigger] coeff(lhs, k) == coeff(rhs, k) by {
        if k < 0 {
            lemma_mul_coeff_zero(ab, c, k);
            lemma_mul_coeff_zero(a, bc, k);
        } else {
            assert forall|t: int| 0 <= t < c.len() implies #[trigger] mul_term(ab, c, k)(t) % pi == left_term(
                a,
                b,
                c,
                k,
            )(t) % pi by {
                assert(coeff(ab, k - t) as int == mul_coeff(a, b, k - t) % pi);
                lemma_mul_mod_noop_left(mul_coeff(a, b, k - t), coeff(c, t) as int, pi);
            }
            lemma_sum_mod(mul_term(ab, c, k), left_term(a, b, c, k), c.len(), pi);
            lemma_mul_coeff_upto(a, bc, k);
            assert forall|u: int| 0 <= u < k + 1 implies #[trigger] mul_term(a, bc, k)(u) % pi == right_term(
                a,
                b,
                c,
                k,
            )(u) % pi by {
                assert(coeff(bc, u) as int == mul_coeff(b, c, u) % pi);
                lemma_mul_mod_noop_right(coeff(a, k - u) as int, mul_coeff(b, c, u), pi);
            }
            lemma_sum_mod(mul_term(a, bc, k), right_term(a, b, c, k), (k + 1) as nat, pi);
            lemma_triple_product(a, b, c, k);
        }
    }
    lemma_trimmed_ext(lhs, rhs);
}

/// A unit times a nonzero residue is nonzero modulo `p`.
proof fn lemma_unit_times_nonzero(x: nat, y: nat, p: nat)
    requires
        0 < x < p,
        gcd(p, x) == 1,
        0 < y < p,
    ensures
        (x * y) % p != 0,
{
    let pi = p as int;
    lemma_inverse(x, p);
    let u = inverse(x, p) as int;
    if (x * y) % p == 0 {
        // y == (x * u) * y == u * (x * y) == 0 modulo p
        lemma_mul_mod_noop_left(x as int * u, y as int, pi);
        lemma_mul_mod_noop_right(u, x as int * y as int, pi);
        assert((x as int * u) * y as int == u * (x as int * y as int)) by (nonlinear_arith);
        lemma_small_mod(y, p);
        lemma_small_mod(0, p);
        assert(false);
    }
}

/// Modulo a prime, a product of two nonzero residues is nonzero.
pub proof fn law_prime_no_zero_divisors(x: nat, y: nat, p: nat)
    requires
        is_prime(p),
        0 < x < p,
        0 < y < p,
    ensures
        (x * y) % p != 0,
{
    crate::math::modular::lemma_prime_coprime(p, x);
    lemma_unit_times_nonzero(x, y, p);
}

/// The degree of a product is the sum of the degrees of its factors, and its leading coefficient
/// the product of theirs, whenever that product of leading coefficients is nonzero modulo `p`
/// (always so for nonzero polynomials modulo a prime, by `law_prime_no_zero_divisors`).
pub proof fn law_mul_degree(a: Seq<nat>, b: Seq<nat>, p: nat)
    requires
        p > 0,
        a.len() > 0,
        b.len() > 0,
        (a.last() * b.last()) % p != 0,
    ensures
        poly_mul(a, b, p).len() == a.len() + b.len() - 1,
        degree(poly_mul(a, b, p)) == degree(a) + degree(b),
        poly_mul(a, b, p).last() == (a.last() * b.last()) % p,
{
    let n = (a.len() + b.len() - 1) as nat;
    let top = n - 1;
    let s = Seq::new(n, |k: int| (mul_coeff(a, b, k) % (p as int)) as nat);
    let f = mul_term(a, b, top);
    let j = b.len() - 1;
    assert forall|i: int| 0 <= i < b.len() && i != j implies #[trigger] f(i) == 0 by {
        assert(coeff(a, top - i) == 0);
    }
    lemma_sum_single(f, b.len(), j);
    assert(f(j) == a.last() as int * b.last() as int);
    assert(s.last() == (a.last() * b.last()) % p);
    assert(trim(s) == s);
}

/// A term of the interpolation sum has at most one coefficient more than it has linear factors.
proof fn lemma_lagrange_term_len(xs: Seq<nat>, ys: Seq<nat>, i: int, m: nat, p: nat)
    requires
        p > 0,
    ensures
        lagrange_term(xs, ys, i, m, p).len() <= if 0 <= i < m { m } else { m + 1 },
    decreases m,
{
    if m == 0 {
        lemma_trim(seq![ys[i]]);
    } else if m - 1 == i {
        lemma_lagrange_term_len(xs, ys, i, (m - 1) as nat, p);
    } else {
        let j = m - 1;
        lemma_lagrange_term_len(xs, ys, i, (m - 1) as nat, p);
        let numerator = seq![((-(xs[j] as int)) % (p as int)) as nat, 1nat % p];
        let denominator = seq![((1nat % p) * inverse(((xs[i] as int - xs[j] as int) % (p as int)) as nat, p)) % p];
        lemma_trim(numerator);
        lemma_trim(denominator);
        lemma_mul_len(trim(numerator), trim(denominator), p);
        lemma_mul_len(lagrange_term(xs, ys, i, (m - 1) as nat, p), lagrange_factor(xs, i, j, p), p);
    }
}

/// The interpolation polynomial through `xs.len()` points has at most `xs.len()` coefficients:
/// its degree is below the number of points.
pub proof fn law_interpolation_degree(xs: Seq<nat>, ys: Seq<nat>, p: nat)
    requires
        p > 0,
        ys.len() <= xs.len(),
    ensures
        lagrange(xs, ys, ys.len(), p).len() <= xs.len(),
{
    lemma_lagrange_len(xs, ys, ys.len(), p);
}

/// The partial interpolation sums have at most `xs.len()` coefficients.
proof fn lemma_lagrange_len(xs: Seq<nat>, ys: Seq<nat>, n: nat, p: nat)
    requires
        p > 0,
        n <= xs.len(),
    ensures
        lagrange(xs, ys, n, p).len() <= xs.len(),
    decreases n,
{
    if n > 0 {
        let prev = lagrange(xs, ys, (n - 1) as nat, p);
        let term = lagrange_term(xs, ys, n - 1, xs.len(), p);
        lemma_lagrange_len(xs, ys, (n - 1) as nat, p);
        lemma_lagrange_term_len(xs, ys, n - 1, xs.len(), p);
        lemma_trim(add_coeffs(prev, term, p));
    }
}

/// Long division by a divisor of degree at most that of the polynomial: the quotient's degree
/// is the difference of the degrees, and its leading coefficient times the divisor's is the
/// polynomial's leading coefficient, modulo `p`.
pub proof fn law_division_degree(a: Seq<nat>, d: Seq<nat>, q: Seq<nat>, r: Seq<nat>, p: nat)
    requires
        p > 0,
        all_below(d, p),
        all_below(q, p),
        is_trimmed(q),
        d.len() > 0,
        gcd(p, d.last()) == 1,
        r.len() < d.len(),
        poly_add(poly_mul(q, d, p), r, p) == trim(a),
        trim(a).len() >= d.len(),
    ensures
        q.len() == trim(a).len() - d.len() + 1,
        degree(q) == degree(trim(a)) - degree(d),
        (q.last() * d.last()) % p == trim(a).last(),
{
    let qd = poly_mul(q, d, p);
    let t = trim(a);
    lemma_mul_coeff(q, d, p);
    lemma_add_coeff(qd, r, p);
    if p == 1 {
        assert(t[t.len() - 1] < 1);
        lemma_trim(a);
        assert(false);
    }
    assert(d.last() > 0) by {
        if d.last() == 0 {
            assert(gcd(p, 0) == p);
        }
    }
    if q.len() == 0 {
        // then t is no longer than r, which is shorter than d
        lemma_trim(add_coeffs(qd, r, p));
        assert(false);
    }
    assert(q.last() > 0 && q.last() < p);
    lemma_unit_times_nonzero(d.last(), q.last(), p);
    lemma_mul_is_commutative(d.last() as int, q.last() as int);
    law_mul_degree(q, d, p);
    let top = qd.len() - 1;
    assert(coeff(qd, top) == qd.last());
    assert(coeff(r, top) == 0);
    lemma_small_mod(qd.last(), p);
    assert(coeff(t, top) == qd.last());
    assert forall|m: int| m >= qd.len() implies #[trigger] coeff(t, m) == 0 by {
        assert(coeff(qd, m) == 0);
        assert(coeff(r, m) == 0);
        lemma_small_mod(0, p);
    }
    lemma_trim(a);
    lemma_trimmed_len_bound(t, qd.len() as int);
}

} // verus!
