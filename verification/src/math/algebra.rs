//! The mathematical model of polynomials: sequences of coefficients, lowest degree first,
//! and the operations on them modulo a number `p`.

use vstd::prelude::*;
use vstd::arithmetic::div_mod::*;
use vstd::arithmetic::mul::*;
use vstd::arithmetic::power::*;
use crate::math::modular::inverse;

verus! {

/// Coefficient `i` of `s`; zero outside the sequence.
pub open spec fn coeff(s: Seq<nat>, i: int) -> nat {
    if 0 <= i < s.len() {
        s[i]
    } else {
        0
    }
}

/// No trailing zero coefficient: the representation of a polynomial that `Polynomial::new` keeps.
pub open spec fn is_trimmed(s: Seq<nat>) -> bool {
    s.len() == 0 || s.last() != 0
}

/// `s` without its trailing zero coefficients.
pub open spec fn trim(s: Seq<nat>) -> Seq<nat>
    decreases s.len(),
{
    if s.len() > 0 && s.last() == 0 {
        trim(s.drop_last())
    } else {
        s
    }
}

/// Every coefficient of `s` is a residue modulo `p`.
pub open spec fn all_below(s: Seq<nat>, p: nat) -> bool {
    forall|i: int| 0 <= i < s.len() ==> #[trigger] s[i] < p
}

/// `f(0) + f(1) + ... + f(n - 1)`.
pub open spec fn sum(f: spec_fn(int) -> int, n: nat) -> int
    decreases n,
{
    if n == 0 {
        0
    } else {
        sum(f, (n - 1) as nat) + f(n - 1)
    }
}

/// Degree as the library reports it: the index of the last coefficient, and zero for
/// the empty sequence.
pub open spec fn degree(s: Seq<nat>) -> nat {
    if s.len() == 0 {
        0
    } else {
        (s.len() - 1) as nat
    }
}

/// Sum of two polynomials modulo `p`, trimmed.
pub open spec fn poly_add(a: Seq<nat>, b: Seq<nat>, p: nat) -> Seq<nat> {
    trim(add_coeffs(a, b, p))
}

/// The coefficient sums of `a` and `b` modulo `p`, up to the longer length.
pub open spec fn add_coeffs(a: Seq<nat>, b: Seq<nat>, p: nat) -> Seq<nat> {
    Seq::new(max_len(a, b), |i: int| ((coeff(a, i) + coeff(b, i)) as int % (p as int)) as nat)
}

/// The larger of the two lengths.
pub open spec fn max_len(a: Seq<nat>, b: Seq<nat>) -> nat {
    if a.len() >= b.len() {
        a.len()
    } else {
        b.len()
    }
}

/// Negation of a polynomial modulo `p`, trimmed.
pub open spec fn poly_neg(a: Seq<nat>, p: nat) -> Seq<nat> {
    trim(Seq::new(a.len(), |i: int| ((-(a[i] as int)) % (p as int)) as nat))
}

/// Difference of two polynomials modulo `p`: `a + (-b)`.
pub open spec fn poly_sub(a: Seq<nat>, b: Seq<nat>, p: nat) -> Seq<nat> {
    poly_add(a, poly_neg(b, p), p)
}

/// Coefficient `k` of the product of `a` and `b` over the integers:
/// the sum of `a[k - i] * b[i]` over the coefficients `b[i]` of `b`.
pub open spec fn mul_coeff(a: Seq<nat>, b: Seq<nat>, k: int) -> int {
    sum(mul_term(a, b, k), b.len())
}

/// The terms `i |-> a[k - i] * b[i]` of the product coefficient `k`.
pub open spec fn mul_term(a: Seq<nat>, b: Seq<nat>, k: int) -> spec_fn(int) -> int {
    |i: int| coeff(a, k - i) as int * coeff(b, i) as int
}

/// Product of two polynomials modulo `p`, trimmed; empty when either factor is empty.
pub open spec fn poly_mul(a: Seq<nat>, b: Seq<nat>, p: nat) -> Seq<nat> {
    if a.len() == 0 || b.len() == 0 {
        Seq::empty()
    } else {
        trim(Seq::new((a.len() + b.len() - 1) as nat, |k: int| (mul_coeff(a, b, k) % (p as int)) as nat))
    }
}

/// The polynomial `c * x^d`, trimmed (empty when `c` is zero).
pub open spec fn monomial(c: nat, d: nat) -> Seq<nat> {
    trim(monomial_coeffs(c, d))
}

/// `s` followed by zeros up to length `n` (`n` at least the length of `s`).
pub open spec fn pad(s: Seq<nat>, n: nat) -> Seq<nat> {
    Seq::new(n, |i: int| coeff(s, i))
}

/// `d` zeros followed by `c`.
pub open spec fn monomial_coeffs(c: nat, d: nat) -> Seq<nat> {
    Seq::new(d + 1, |i: int| if i == d { c } else { 0 })
}

/// Value of the polynomial `a` at `x`, over the integers: the sum of `a[i] * x^i`.
pub open spec fn poly_eval(a: Seq<nat>, x: int) -> int {
    sum(eval_term(a, x), a.len())
}

/// The terms `i |-> a[i] * x^i` of the value of `a` at `x`.
pub open spec fn eval_term(a: Seq<nat>, x: int) -> spec_fn(int) -> int {
    |i: int| coeff(a, i) as int * pow(x, i as nat)
}

// ---------------------------------------------------------------------------------------
// Finite sums
// ---------------------------------------------------------------------------------------

/// Sums of functions that agree on the range agree.
pub proof fn lemma_sum_ext(f: spec_fn(int) -> int, g: spec_fn(int) -> int, n: nat)
    requires
        forall|i: int| 0 <= i < n ==> #[trigger] f(i) == g(i),
    ensures
        sum(f, n) == sum(g, n),
    decreases n,
{
    if n > 0 {
        lemma_sum_ext(f, g, (n - 1) as nat);
    }
}

/// A sum of zeros is zero.
pub proof fn lemma_sum_zero(f: spec_fn(int) -> int, n: nat)
    requires
        forall|i: int| 0 <= i < n ==> #[trigger] f(i) == 0,
    ensures
        sum(f, n) == 0,
    decreases n,
{
    if n > 0 {
        lemma_sum_zero(f, (n - 1) as nat);
    }
}

/// Extending a sum by zero terms does not change it.
pub proof fn lemma_sum_extend(f: spec_fn(int) -> int, n: nat, m: nat)
    requires
        n <= m,
        forall|i: int| n <= i < m ==> #[trigger] f(i) == 0,
    ensures
        sum(f, m) == sum(f, n),
    decreases m,
{
    if m > n {
        lemma_sum_extend(f, n, (m - 1) as nat);
    }
}

/// The sum of pointwise sums is the sum of the sums.
pub proof fn lemma_sum_add(f: spec_fn(int) -> int, g: spec_fn(int) -> int, n: nat)
    ensures
        sum(|i: int| f(i) + g(i), n) == sum(f, n) + sum(g, n),
    decreases n,
{
    if n > 0 {
        lemma_sum_add(f, g, (n - 1) as nat);
    }
}

/// A constant factor comes out of a sum.
pub proof fn lemma_sum_scale(f: spec_fn(int) -> int, c: int, n: nat)
    ensures
        sum(|i: int| c * f(i), n) == c * sum(f, n),
    decreases n,
{
    if n > 0 {
        lemma_sum_scale(f, c, (n - 1) as nat);
        lemma_mul_is_distributive_add(c, sum(f, (n - 1) as nat), f(n - 1));
    }
}

/// A sum with a single nonzero term is that term.
pub proof fn lemma_sum_single(f: spec_fn(int) -> int, n: nat, j: int)
    requires
        0 <= j < n,
        forall|i: int| 0 <= i < n && i != j ==> #[trigger] f(i) == 0,
    ensures
        sum(f, n) == f(j),
    decreases n,
{
    if n - 1 == j {
        lemma_sum_zero(f, (n - 1) as nat);
    } else {
        lemma_sum_single(f, (n - 1) as nat, j);
    }
}

/// Peeling off the first term of a sum.
pub proof fn lemma_sum_first(f: spec_fn(int) -> int, n: nat)
    requires
        n > 0,
    ensures
        sum(f, n) == f(0) + sum(|i: int| f(i + 1), (n - 1) as nat),
    decreases n,
{
    let h = |i: int| f(i + 1);
    if n > 1 {
        lemma_sum_first(f, (n - 1) as nat);
        assert(sum(h, (n - 1) as nat) == sum(h, (n - 2) as nat) + h(n - 2));
    } else {
        assert(sum(f, 1) == sum(f, 0) + f(0));
        assert(sum(h, 0) == 0);
    }
}

/// A sum read backwards is the same sum.
pub proof fn lemma_sum_reverse(f: spec_fn(int) -> int, n: nat)
    ensures
        sum(f, n) == sum(|i: int| f(n - 1 - i), n),
    decreases n,
{
    if n > 0 {
        let g = |i: int| f(n - 1 - i);
        lemma_sum_first(g, n);
        let h = |i: int| g(i + 1);
        lemma_sum_reverse(f, (n - 1) as nat);
        lemma_sum_ext(h, |i: int| f((n - 1) as nat - 1 - i), (n - 1) as nat);
    }
}

/// Sums of functions congruent term by term modulo `m` are congruent modulo `m`.
pub proof fn lemma_sum_mod(f: spec_fn(int) -> int, g: spec_fn(int) -> int, n: nat, m: int)
    requires
        m > 0,
        forall|i: int| 0 <= i < n ==> #[trigger] f(i) % m == g(i) % m,
    ensures
        sum(f, n) % m == sum(g, n) % m,
    decreases n,
{
    if n > 0 {
        lemma_sum_mod(f, g, (n - 1) as nat, m);
        lemma_add_mod_noop(sum(f, (n - 1) as nat), f(n - 1), m);
        lemma_add_mod_noop(sum(g, (n - 1) as nat), g(n - 1), m);
    }
}

// ---------------------------------------------------------------------------------------
// Trimming
// ---------------------------------------------------------------------------------------

/// `trim(s)` is a trimmed prefix of `s` with the same coefficients; what it drops is zero.
pub proof fn lemma_trim(s: Seq<nat>)
    ensures
        is_trimmed(trim(s)),
        trim(s).len() <= s.len(),
        trim(s) == s.subrange(0, trim(s).len() as int),
        forall|i: int| trim(s).len() <= i < s.len() ==> #[trigger] s[i] == 0,
        forall|i: int| #[trigger] coeff(trim(s), i) == coeff(s, i),
    decreases s.len(),
{
    if s.len() > 0 && s.last() == 0 {
        let d = s.drop_last();
        lemma_trim(d);
        assert forall|i: int| trim(s).len() <= i < s.len() implies #[trigger] s[i] == 0 by {
            if i < d.len() {
                assert(d[i] == 0);
            }
        }
    } else {
        assert(s == s.subrange(0, s.len() as int));
    }
}

/// Trimming keeps coefficients below `p`.
pub proof fn lemma_trim_below(s: Seq<nat>, p: nat)
    requires
        all_below(s, p),
    ensures
        all_below(trim(s), p),
{
    lemma_trim(s);
    assert forall|i: int| 0 <= i < trim(s).len() implies #[trigger] trim(s)[i] < p by {
        assert(trim(s)[i] == s[i]);
    }
}

/// Two trimmed sequences with the same coefficients are equal.
pub proof fn lemma_trimmed_ext(a: Seq<nat>, b: Seq<nat>)
    requires
        is_trimmed(a),
        is_trimmed(b),
        forall|i: int| #[trigger] coeff(a, i) == coeff(b, i),
    ensures
        a == b,
{
    if a.len() < b.len() {
        assert(coeff(b, b.len() - 1) == coeff(a, b.len() - 1));
    } else if b.len() < a.len() {
        assert(coeff(a, a.len() - 1) == coeff(b, a.len() - 1));
    } else {
        assert forall|i: int| 0 <= i < a.len() implies a[i] == b[i] by {
            assert(coeff(a, i) == coeff(b, i));
        }
        assert(a =~= b);
    }
}

/// A trimmed sequence with the coefficients of `s` is `trim(s)`.
pub proof fn lemma_trim_unique(s: Seq<nat>, t: Seq<nat>)
    requires
        is_trimmed(t),
        forall|i: int| #[trigger] coeff(t, i) == coeff(s, i),
    ensures
        trim(s) == t,
{
    lemma_trim(s);
    lemma_trimmed_ext(trim(s), t);
}

/// A trimmed sequence whose coefficients vanish from index `j` on has length at most `j`.
pub proof fn lemma_trimmed_len_bound(t: Seq<nat>, j: int)
    requires
        is_trimmed(t),
        j >= 0,
        forall|m: int| m >= j ==> #[trigger] coeff(t, m) == 0,
    ensures
        t.len() <= j,
{
    if t.len() > j {
        assert(coeff(t, t.len() - 1) == 0);
    }
}

// ---------------------------------------------------------------------------------------
// Coefficients of the operations
// ---------------------------------------------------------------------------------------

/// The coefficients of a sum are the sums of the coefficients, modulo `p`.
pub proof fn lemma_add_coeff(a: Seq<nat>, b: Seq<nat>, p: nat)
    requires
        p > 0,
    ensures
        is_trimmed(poly_add(a, b, p)),
        all_below(poly_add(a, b, p), p),
        forall|i: int| #[trigger] coeff(poly_add(a, b, p), i) == (coeff(a, i) + coeff(b, i)) % p,
{
    let n = if a.len() >= b.len() {
        a.len()
    } else {
        b.len()
    };
    let s = add_coeffs(a, b, p);
    lemma_trim(s);
    lemma_trim_below(s, p);
    assert forall|i: int| #[trigger] coeff(poly_add(a, b, p), i) == (coeff(a, i) + coeff(b, i)) % p by {
        assert(coeff(poly_add(a, b, p), i) == coeff(s, i));
        if !(0 <= i < n) {
            lemma_small_mod(0, p);
        }
    }
}

/// The coefficients of a negation are the negated coefficients, modulo `p`.
pub proof fn lemma_neg_coeff(a: Seq<nat>, p: nat)
    requires
        p > 0,
    ensures
        is_trimmed(poly_neg(a, p)),
        all_below(poly_neg(a, p), p),
        forall|i: int| #[trigger] coeff(poly_neg(a, p), i) == (-(coeff(a, i) as int)) % (p as int),
{
    let s = Seq::new(a.len(), |i: int| ((-(a[i] as int)) % (p as int)) as nat);
    lemma_trim(s);
    assert forall|i: int| 0 <= i < s.len() implies #[trigger] s[i] < p by {
        lemma_mod_bound(-(a[i] as int), p as int);
    }
    lemma_trim_below(s, p);
    assert forall|i: int| #[trigger] coeff(poly_neg(a, p), i) == (-(coeff(a, i) as int)) % (p as int) by {
        assert(coeff(poly_neg(a, p), i) == coeff(s, i));
        if 0 <= i < a.len() {
            lemma_mod_bound(-(a[i] as int), p as int);
        } else {
            lemma_small_mod(0, p);
        }
    }
}

/// The product coefficient `k` vanishes outside `0 <= k < a.len() + b.len() - 1`.
pub proof fn lemma_mul_coeff_zero(a: Seq<nat>, b: Seq<nat>, k: int)
    requires
        a.len() == 0 || b.len() == 0 || k < 0 || k >= a.len() + b.len() - 1,
    ensures
        mul_coeff(a, b, k) == 0,
{
    let f = mul_term(a, b, k);
    assert forall|i: int| 0 <= i < b.len() implies #[trigger] f(i) == 0 by {
        if b.len() > 0 {
            assert(coeff(a, k - i) == 0);
        }
    }
    lemma_sum_zero(f, b.len());
}

/// The coefficients of a product are the integer product coefficients, modulo `p`.
pub proof fn lemma_mul_coeff(a: Seq<nat>, b: Seq<nat>, p: nat)
    requires
        p > 0,
    ensures
        is_trimmed(poly_mul(a, b, p)),
        all_below(poly_mul(a, b, p), p),
        forall|k: int| #[trigger] coeff(poly_mul(a, b, p), k) == mul_coeff(a, b, k) % (p as int),
{
    if a.len() == 0 || b.len() == 0 {
        assert forall|k: int| #[trigger] coeff(poly_mul(a, b, p), k) == mul_coeff(a, b, k) % (p as int) by {
            lemma_mul_coeff_zero(a, b, k);
            lemma_small_mod(0, p);
        }
    } else {
        let n = (a.len() + b.len() - 1) as nat;
        let s = Seq::new(n, |k: int| (mul_coeff(a, b, k) % (p as int)) as nat);
        lemma_trim(s);
        assert forall|i: int| 0 <= i < s.len() implies #[trigger] s[i] < p by {
            lemma_mod_bound(mul_coeff(a, b, i), p as int);
        }
        lemma_trim_below(s, p);
        assert forall|k: int| #[trigger] coeff(poly_mul(a, b, p), k) == mul_coeff(a, b, k) % (p as int) by {
            assert(coeff(poly_mul(a, b, p), k) == coeff(s, k));
            if 0 <= k < n {
                lemma_mod_bound(mul_coeff(a, b, k), p as int);
            } else {
                lemma_mul_coeff_zero(a, b, k);
                lemma_small_mod(0, p);
            }
        }
    }
}

/// The coefficients of `c * x^d`.
pub proof fn lemma_monomial_coeff(c: nat, d: nat)
    ensures
        is_trimmed(monomial(c, d)),
        forall|i: int| #[trigger] coeff(monomial(c, d), i) == if i == d { c } else { 0 },
{
    let s = monomial_coeffs(c, d);
    lemma_trim(s);
    assert forall|i: int| #[trigger] coeff(monomial(c, d), i) == if i == d { c } else { 0 } by {
        assert(coeff(monomial(c, d), i) == coeff(s, i));
    }
}

} // verus!

verus! {

// ---------------------------------------------------------------------------------------
// Products with monomials, and the steps of long division
// ---------------------------------------------------------------------------------------

/// Multiplying by `c * x^k` shifts by `k` and scales by `c`.
pub proof fn lemma_mul_coeff_monomial(d: Seq<nat>, c: nat, k: nat, m: int)
    ensures
        mul_coeff(d, monomial(c, k), m) == coeff(d, m - k) as int * c as int,
{
    lemma_monomial_coeff(c, k);
    let mono = monomial(c, k);
    let f = mul_term(d, mono, m);
    if c == 0 {
        if mono.len() > 0 {
            assert(coeff(mono, mono.len() - 1) == 0);
        }
        assert(coeff(d, m - k) as int * 0 == 0);
    } else {
        lemma_trim(monomial_coeffs(c, k));
        assert(mono.len() == k + 1) by {
            if mono.len() < k + 1 {
                assert(coeff(mono, k as int) == c);
            }
        }
        assert forall|i: int| 0 <= i < mono.len() && i != k implies #[trigger] f(i) == 0 by {
            assert(coeff(mono, i) == 0);
        }
        lemma_sum_single(f, mono.len(), k as int);
    }
}

/// Setting a zero coefficient `k` of `q` to `c` adds `c * x^k * d` to `q * d`.
pub proof fn lemma_mul_coeff_update(q: Seq<nat>, d: Seq<nat>, k: int, c: nat, m: int)
    requires
        0 <= k < q.len(),
        q[k] == 0,
    ensures
        mul_coeff(q.update(k, c), d, m) == mul_coeff(q, d, m) + coeff(d, m - k) as int * c as int,
{
    let q2 = q.update(k, c);
    let g = |t: int| if t == m - k { coeff(d, t) as int * c as int } else { 0 };
    let h = |t: int| mul_term(q, d, m)(t) + g(t);
    assert forall|t: int| 0 <= t < d.len() implies #[trigger] mul_term(q2, d, m)(t) == h(t) by {
        if m - t == k {
            assert(coeff(q2, m - t) == c);
            assert(coeff(q, m - t) == 0);
            vstd::arithmetic::mul::lemma_mul_is_commutative(c as int, coeff(d, t) as int);
        } else {
            assert(coeff(q2, m - t) == coeff(q, m - t));
        }
    }
    lemma_sum_ext(mul_term(q2, d, m), h, d.len());
    lemma_sum_add(mul_term(q, d, m), g, d.len());
    if 0 <= m - k < d.len() {
        lemma_sum_single(g, d.len(), m - k);
    } else {
        lemma_sum_zero(g, d.len());
    }
}

/// The product depends only on the coefficients of the first factor, not on trailing zeros.
pub proof fn lemma_mul_trim_left(q: Seq<nat>, d: Seq<nat>, p: nat)
    requires
        p > 0,
    ensures
        poly_mul(trim(q), d, p) == poly_mul(q, d, p),
{
    lemma_trim(q);
    lemma_mul_coeff(trim(q), d, p);
    lemma_mul_coeff(q, d, p);
    assert forall|m: int| #[trigger] coeff(poly_mul(trim(q), d, p), m) == coeff(poly_mul(q, d, p), m) by {
        assert forall|t: int| 0 <= t < d.len() implies #[trigger] mul_term(trim(q), d, m)(t) == mul_term(q, d, m)(t) by {
            assert(coeff(trim(q), m - t) == coeff(q, m - t));
        }
        lemma_sum_ext(mul_term(trim(q), d, m), mul_term(q, d, m), d.len());
    }
    lemma_trimmed_ext(poly_mul(trim(q), d, p), poly_mul(q, d, p));
}

/// `((M + X) mod p + (n + (-(X mod p)) mod p) mod p) mod p == (M mod p + n) mod p`.
proof fn lemma_step_arith(mm: int, x: int, n: int, p: int)
    requires
        p > 0,
    ensures
        ((mm + x) % p + (n + (-(x % p)) % p) % p) % p == (mm % p + n) % p,
{
    let y = n + (-(x % p)) % p;
    lemma_add_mod_noop(mm + x, y, p);
    lemma_mod_twice(y, p);
    lemma_mod_twice(mm + x, p);
    lemma_add_mod_noop_right(mm + x + n, -(x % p), p);
    assert(mm + x + y == mm + x + n + (-(x % p)) % p);
    lemma_fundamental_div_mod(x, p);
    assert(mm + x + n + -(x % p) == p * (x / p) + (mm + n));
    lemma_mod_multiples_vanish(x / p, mm + n, p);
    lemma_add_mod_noop(mm, n, p);
    lemma_add_mod_noop(mm % p, n, p);
    lemma_mod_twice(mm, p);
}

/// One step of long division keeps `quotient * divisor + remainder` unchanged: coefficient `k`
/// of the quotient (zero before) becomes `c`, and `c * x^k * divisor` leaves the remainder.
pub proof fn lemma_division_step(q: Seq<nat>, d: Seq<nat>, n: Seq<nat>, c: nat, k: int, p: nat)
    requires
        p > 0,
        0 <= k < q.len(),
        q[k] == 0,
    ensures
        poly_add(poly_mul(q.update(k, c), d, p), poly_sub(n, poly_mul(d, monomial(c, k as nat), p), p), p)
            == poly_add(poly_mul(q, d, p), n, p),
{
    let q2 = q.update(k, c);
    let pm = poly_mul(d, monomial(c, k as nat), p);
    let neg = poly_neg(pm, p);
    let sub = poly_add(n, neg, p);
    let lhs = poly_add(poly_mul(q2, d, p), sub, p);
    let rhs = poly_add(poly_mul(q, d, p), n, p);
    lemma_mul_coeff(q2, d, p);
    lemma_mul_coeff(q, d, p);
    lemma_mul_coeff(d, monomial(c, k as nat), p);
    lemma_neg_coeff(pm, p);
    lemma_add_coeff(n, neg, p);
    lemma_add_coeff(poly_mul(q2, d, p), sub, p);
    lemma_add_coeff(poly_mul(q, d, p), n, p);
    assert forall|m: int| #[trigger] coeff(lhs, m) == coeff(rhs, m) by {
        let mm = mul_coeff(q, d, m);
        let x = coeff(d, m - k) as int * c as int;
        lemma_mul_coeff_update(q, d, k, c, m);
        lemma_mul_coeff_monomial(d, c, k as nat, m);
        lemma_step_arith(mm, x, coeff(n, m) as int, p as int);
    }
    lemma_trimmed_ext(lhs, rhs);
}

/// When `c * x^k * d` cancels the last coefficient of `n` (with `k = n.len() - d.len()`),
/// the remainder `n - c * x^k * d` is shorter than `n`.
pub proof fn lemma_division_shrinks(n: Seq<nat>, d: Seq<nat>, c: nat, k: nat, p: nat)
    requires
        p > 0,
        n.len() > 0,
        k + d.len() == n.len() || (d.len() == 0 && k < n.len()),
        all_below(n, p),
        (c as int * coeff(d, d.len() - 1) as int) % (p as int) == n.last(),
    ensures
        poly_sub(n, poly_mul(d, monomial(c, k), p), p).len() < n.len(),
{
    let pm = poly_mul(d, monomial(c, k), p);
    let neg = poly_neg(pm, p);
    let sub = poly_add(n, neg, p);
    lemma_mul_coeff(d, monomial(c, k), p);
    lemma_neg_coeff(pm, p);
    lemma_add_coeff(n, neg, p);
    let top = n.len() - 1;
    assert forall|m: int| m >= top implies #[trigger] coeff(sub, m) == 0 by {
        lemma_mul_coeff_monomial(d, c, k, m);
        vstd::arithmetic::mul::lemma_mul_is_commutative(c as int, coeff(d, m - k) as int);
        if m == top && d.len() > 0 {
            assert(m - k == d.len() - 1);
            assert(mul_coeff(d, monomial(c, k), m) == c as int * coeff(d, d.len() - 1) as int);
            lemma_small_mod(n.last(), p);
            assert(coeff(pm, m) as int == (n.last() as int) % (p as int));
            lemma_mod_add_multiples_vanish(0, p as int);
            assert((n.last() as int + (-(n.last() as int)) % (p as int)) % (p as int) == 0) by {
                lemma_add_mod_noop_right(n.last() as int, -(n.last() as int), p as int);
                lemma_small_mod(0, p);
            }
        } else {
            assert(coeff(d, m - k) == 0);
            lemma_small_mod(0, p);
        }
    }
    lemma_trimmed_len_bound(sub, top);
}

} // verus!

verus! {

/// Adding the zero polynomial trims.
pub proof fn lemma_add_zero(a: Seq<nat>, p: nat)
    requires
        p > 0,
        all_below(a, p),
    ensures
        poly_add(Seq::<nat>::empty(), a, p) == trim(a),
{
    lemma_add_coeff(Seq::<nat>::empty(), a, p);
    lemma_trim(a);
    assert forall|i: int| #[trigger] coeff(trim(a), i) == coeff(poly_add(Seq::<nat>::empty(), a, p), i) by {
        if 0 <= i < a.len() {
            assert(a[i] < p);
            lemma_small_mod(a[i], p);
        } else {
            lemma_small_mod(0, p);
        }
    }
    lemma_trimmed_ext(trim(a), poly_add(Seq::<nat>::empty(), a, p));
}

/// Dividing a polynomial whose coefficients are all zero by anything leaves nothing.
pub proof fn lemma_division_zero(n: Seq<nat>, d: Seq<nat>, k: nat, p: nat)
    requires
        p > 0,
        forall|i: int| 0 <= i < n.len() ==> #[trigger] n[i] == 0,
    ensures
        poly_sub(n, poly_mul(d, monomial(0, k), p), p).len() == 0,
{
    let pm = poly_mul(d, monomial(0, k), p);
    let neg = poly_neg(pm, p);
    let sub = poly_add(n, neg, p);
    lemma_mul_coeff(d, monomial(0, k), p);
    lemma_neg_coeff(pm, p);
    lemma_add_coeff(n, neg, p);
    assert forall|m: int| m >= 0 implies #[trigger] coeff(sub, m) == 0 by {
        lemma_mul_coeff_monomial(d, 0, k, m);
        lemma_small_mod(0, p);
        assert(coeff(n, m) == 0);
    }
    lemma_trimmed_len_bound(sub, 0);
}

} // verus!

verus! {

// ---------------------------------------------------------------------------------------
// Lagrange interpolation
// ---------------------------------------------------------------------------------------

/// The linear factor `(x - xs[j]) * (1 / (xs[i] - xs[j]))` modulo `p`.
pub open spec fn lagrange_factor(xs: Seq<nat>, i: int, j: int, p: nat) -> Seq<nat> {
    let numerator = trim(seq![((-(xs[j] as int)) % (p as int)) as nat, 1nat % p]);
    let difference = ((xs[i] as int - xs[j] as int) % (p as int)) as nat;
    let denominator = trim(seq![((1nat % p) * inverse(difference, p)) % p]);
    poly_mul(numerator, denominator, p)
}

/// `ys[i]` times the factors `lagrange_factor(xs, i, j, p)` for `j < m`, `j != i`.
pub open spec fn lagrange_term(xs: Seq<nat>, ys: Seq<nat>, i: int, m: nat, p: nat) -> Seq<nat>
    decreases m,
{
    if m == 0 {
        trim(seq![ys[i]])
    } else if m - 1 == i {
        lagrange_term(xs, ys, i, (m - 1) as nat, p)
    } else {
        poly_mul(lagrange_term(xs, ys, i, (m - 1) as nat, p), lagrange_factor(xs, i, m - 1, p), p)
    }
}

/// The Lagrange interpolation polynomial: the sum of `lagrange_term(xs, ys, i, xs.len(), p)`
/// over `i < n`.
pub open spec fn lagrange(xs: Seq<nat>, ys: Seq<nat>, n: nat, p: nat) -> Seq<nat>
    decreases n,
{
    if n == 0 {
        Seq::empty()
    } else {
        poly_add(lagrange(xs, ys, (n - 1) as nat, p), lagrange_term(xs, ys, n - 1, xs.len(), p), p)
    }
}

/// A product is no longer than the sum of the lengths of its factors, less one.
pub proof fn lemma_mul_len(a: Seq<nat>, b: Seq<nat>, p: nat)
    requires
        p > 0,
    ensures
        poly_mul(a, b, p).len() + 1 <= a.len() + b.len() || poly_mul(a, b, p).len() == 0,
{
    lemma_mul_coeff(a, b, p);
    if a.len() > 0 && b.len() > 0 {
        assert forall|m: int| m >= a.len() + b.len() - 1 implies #[trigger] coeff(poly_mul(a, b, p), m) == 0 by {
            lemma_mul_coeff_zero(a, b, m);
            lemma_small_mod(0, p);
        }
        lemma_trimmed_len_bound(poly_mul(a, b, p), a.len() + b.len() - 1);
    }
}

} // verus!
