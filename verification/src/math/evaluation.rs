//! Evaluation of polynomials: the value of a sum is the sum of the values, and the value of
//! a product is the product of the values, modulo `p`.

use vstd::prelude::*;
use vstd::arithmetic::div_mod::*;
use vstd::arithmetic::mul::*;
use vstd::arithmetic::power::*;
use crate::math::algebra::{
    coeff, eval_term, lemma_add_coeff, lemma_mul_coeff, lemma_mul_coeff_zero,
    lemma_sum_add, lemma_sum_ext, lemma_sum_extend, lemma_sum_mod, lemma_sum_scale, lemma_sum_zero,
    lemma_neg_coeff, lemma_trim, mul_coeff, mul_term, poly_add, poly_eval, poly_mul, poly_neg, poly_sub,
    sum, trim,
};

verus! {

/// Extending the value sum past the last coefficient adds nothing.
pub proof fn lemma_eval_extend(a: Seq<nat>, x: int, n: nat)
    requires
        n >= a.len(),
    ensures
        sum(eval_term(a, x), n) == poly_eval(a, x),
{
    assert forall|i: int| a.len() <= i < n implies #[trigger] eval_term(a, x)(i) == 0 by {
        assert(coeff(a, i) == 0);
    }
    lemma_sum_extend(eval_term(a, x), a.len(), n);
}

/// Trimming does not change the value.
pub proof fn lemma_eval_trim(a: Seq<nat>, x: int)
    ensures
        poly_eval(trim(a), x) == poly_eval(a, x),
{
    lemma_trim(a);
    lemma_eval_extend(trim(a), x, a.len());
    lemma_sum_ext(eval_term(trim(a), x), eval_term(a, x), a.len());
}

/// The value of a sum is the sum of the values, modulo `p`.
pub proof fn law_eval_add(a: Seq<nat>, b: Seq<nat>, x: int, p: nat)
    requires
        p > 0,
    ensures
        poly_eval(poly_add(a, b, p), x) % (p as int) == (poly_eval(a, x) + poly_eval(b, x)) % (p as int),
{
    let s = poly_add(a, b, p);
    lemma_add_coeff(a, b, p);
    let n = if a.len() >= b.len() { a.len() } else { b.len() };
    assert(s.len() <= n) by {
        if s.len() > n {
            assert(coeff(s, s.len() - 1) == (coeff(a, s.len() - 1) + coeff(b, s.len() - 1)) % p);
            lemma_small_mod(0, p);
        }
    }
    lemma_eval_extend(s, x, n);
    lemma_eval_extend(a, x, n);
    lemma_eval_extend(b, x, n);
    let both = |i: int| eval_term(a, x)(i) + eval_term(b, x)(i);
    lemma_sum_add(eval_term(a, x), eval_term(b, x), n);
    assert forall|i: int| 0 <= i < n implies #[trigger] eval_term(s, x)(i) % (p as int) == both(i) % (p as int) by {
        let pw = pow(x, i as nat);
        lemma_mul_mod_noop_left(coeff(a, i) as int + coeff(b, i) as int, pw, p as int);
        lemma_mul_is_distributive_add_other_way(pw, coeff(a, i) as int, coeff(b, i) as int);
    }
    lemma_sum_mod(eval_term(s, x), both, n, p as int);
}

/// The terms `k |-> mul_coeff(a, b, k) * x^k` of the value of the integer product.
pub open spec fn product_term(a: Seq<nat>, b: Seq<nat>, x: int) -> spec_fn(int) -> int {
    |k: int| mul_coeff(a, b, k) * pow(x, k as nat)
}

/// `sum_k a[k - n] * x^k == x^n * sum_j a[j] * x^j` (the value of `a` shifted by `n`).
proof fn lemma_eval_shift(a: Seq<nat>, x: int, n: nat, m: nat)
    requires
        m >= n,
    ensures
        sum(|k: int| coeff(a, k - n) as int * pow(x, k as nat), m) == pow(x, n) * sum(
            eval_term(a, x),
            (m - n) as nat,
        ),
    decreases m,
{
    let f = |k: int| coeff(a, k - n) as int * pow(x, k as nat);
    if m == n {
        assert forall|k: int| 0 <= k < m implies #[trigger] f(k) == 0 by {
            assert(coeff(a, k - n) == 0);
        }
        lemma_sum_zero(f, m);
        assert(pow(x, n) * 0 == 0);
    } else {
        lemma_eval_shift(a, x, n, (m - 1) as nat);
        let j = (m - 1 - n) as nat;
        lemma_pow_adds(x, n, j);
        assert(n + j == m - 1);
        lemma_mul_is_distributive_add(pow(x, n), sum(eval_term(a, x), j), eval_term(a, x)(j as int));
        assert(pow(x, n) * (coeff(a, j as int) as int * pow(x, j)) == coeff(a, j as int) as int * (pow(x, n) * pow(x, j))) by (nonlinear_arith);
    }
}

/// The integer product coefficients evaluate to the product of the values.
proof fn lemma_eval_product_terms(a: Seq<nat>, b: Seq<nat>, x: int, m: nat)
    requires
        m + 1 >= a.len() + b.len(),
    ensures
        sum(product_term(a, b, x), m) == poly_eval(a, x) * poly_eval(b, x),
    decreases b.len(),
{
    if b.len() == 0 {
        assert forall|k: int| 0 <= k < m implies #[trigger] product_term(a, b, x)(k) == 0 by {
            lemma_mul_coeff_zero(a, b, k);
        }
        lemma_sum_zero(product_term(a, b, x), m);
        assert(poly_eval(b, x) == 0);
        assert(poly_eval(a, x) * 0 == 0);
    } else {
        let n = (b.len() - 1) as nat;
        let b0 = b.drop_last();
        let c = b.last();
        lemma_eval_product_terms(a, b0, x, m);
        // The value of b is the value of b0 plus c * x^n.
        lemma_sum_ext(eval_term(b, x), eval_term(b0, x), n);
        assert(poly_eval(b, x) == poly_eval(b0, x) + c as int * pow(x, n));
        // Each product coefficient gains a[k - n] * c.
        let shifted = |k: int| coeff(a, k - n) as int * pow(x, k as nat);
        let scaled = |k: int| c as int * shifted(k);
        let both = |k: int| product_term(a, b0, x)(k) + scaled(k);
        assert forall|k: int| 0 <= k < m implies #[trigger] product_term(a, b, x)(k) == both(k) by {
            lemma_sum_ext(mul_term(a, b, k), mul_term(a, b0, k), n);
            assert(mul_coeff(a, b, k) == mul_coeff(a, b0, k) + coeff(a, k - n) as int * c as int);
            lemma_mul_is_distributive_add_other_way(pow(x, k as nat), mul_coeff(a, b0, k), coeff(a, k - n) as int * c as int);
            assert(coeff(a, k - n) as int * c as int * pow(x, k as nat) == c as int * (coeff(a, k - n) as int * pow(x, k as nat))) by (nonlinear_arith);
        }
        lemma_sum_ext(product_term(a, b, x), both, m);
        lemma_sum_add(product_term(a, b0, x), scaled, m);
        lemma_sum_scale(shifted, c as int, m);
        lemma_eval_shift(a, x, n, m);
        lemma_eval_extend(a, x, (m - n) as nat);
        let ea = poly_eval(a, x);
        let eb0 = poly_eval(b0, x);
        assert(ea * eb0 + c as int * (pow(x, n) * ea) == ea * (eb0 + c as int * pow(x, n))) by (nonlinear_arith);
    }
}

/// The value of a product is the product of the values, modulo `p`.
pub proof fn law_eval_mul(a: Seq<nat>, b: Seq<nat>, x: int, p: nat)
    requires
        p > 0,
    ensures
        poly_eval(poly_mul(a, b, p), x) % (p as int) == (poly_eval(a, x) * poly_eval(b, x)) % (p as int),
{
    let s = poly_mul(a, b, p);
    let m = a.len() + b.len();
    lemma_mul_coeff(a, b, p);
    assert(s.len() <= m) by {
        if s.len() > m {
            lemma_mul_coeff_zero(a, b, s.len() - 1);
            lemma_small_mod(0, p);
            assert(coeff(s, s.len() - 1) == 0);
        }
    }
    lemma_eval_extend(s, x, m);
    lemma_eval_product_terms(a, b, x, m);
    assert forall|k: int| 0 <= k < m implies #[trigger] eval_term(s, x)(k) % (p as int) == product_term(a, b, x)(k) % (p as int) by {
        lemma_mul_mod_noop_left(mul_coeff(a, b, k), pow(x, k as nat), p as int);
        lemma_mod_bound(mul_coeff(a, b, k), p as int);
    }
    lemma_sum_mod(eval_term(s, x), product_term(a, b, x), m, p as int);
}

/// The value of a constant.
pub proof fn lemma_eval_constant(v: nat, x: int)
    ensures
        poly_eval(trim(seq![v]), x) == v,
{
    lemma_eval_trim(seq![v], x);
    lemma_pow0(x);
    assert(sum(eval_term(seq![v], x), 0) == 0);
}

/// The value of `u + w * x`.
pub proof fn lemma_eval_linear(u: nat, w: nat, x: int)
    ensures
        poly_eval(trim(seq![u, w]), x) == u + w * x,
{
    lemma_eval_trim(seq![u, w], x);
    lemma_pow0(x);
    lemma_pow1(x);
    let f = eval_term(seq![u, w], x);
    assert(sum(f, 0) == 0);
    assert(f(0) == u);
    assert(f(1) == w * x);
    assert(sum(f, 1) == u);
    assert(sum(f, 2) == u + w * x);
}

/// The value of a negation is the negated value, modulo `p`.
pub proof fn law_eval_neg(a: Seq<nat>, x: int, p: nat)
    requires
        p > 0,
    ensures
        poly_eval(poly_neg(a, p), x) % (p as int) == (-poly_eval(a, x)) % (p as int),
{
    let pi = p as int;
    let s = poly_neg(a, p);
    lemma_neg_coeff(a, p);
    assert(s.len() <= a.len()) by {
        if s.len() > a.len() {
            assert(coeff(s, s.len() - 1) as int == (-(coeff(a, s.len() - 1) as int)) % pi);
            lemma_small_mod(0, p);
        }
    }
    lemma_eval_extend(s, x, a.len());
    let negated = |i: int| -1 * eval_term(a, x)(i);
    assert forall|i: int| 0 <= i < a.len() implies #[trigger] eval_term(s, x)(i) % pi == negated(i) % pi by {
        let pw = pow(x, i as nat);
        let c = coeff(a, i) as int;
        lemma_mul_mod_noop_left(-c, pw, pi);
        lemma_mod_bound(-c, pi);
        assert(-c * pw == -1 * (c * pw)) by (nonlinear_arith);
    }
    lemma_sum_mod(eval_term(s, x), negated, a.len(), pi);
    lemma_sum_scale(eval_term(a, x), -1, a.len());
}

/// The value of a difference is the difference of the values, modulo `p`.
pub proof fn law_eval_sub(a: Seq<nat>, b: Seq<nat>, x: int, p: nat)
    requires
        p > 0,
    ensures
        poly_eval(poly_sub(a, b, p), x) % (p as int) == (poly_eval(a, x) - poly_eval(b, x)) % (p as int),
{
    let pi = p as int;
    let neg = poly_neg(b, p);
    law_eval_add(a, neg, x, p);
    law_eval_neg(b, x, p);
    lemma_add_mod_noop_right(poly_eval(a, x), poly_eval(neg, x), pi);
    lemma_add_mod_noop_right(poly_eval(a, x), -poly_eval(b, x), pi);
}

} // verus!
