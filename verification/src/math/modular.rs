//! Facts of elementary number theory that the field arithmetic rests on.

use vstd::prelude::*;
use vstd::arithmetic::div_mod::*;
use vstd::arithmetic::mul::*;

verus! {

/// Greatest common divisor, by Euclid's recursion:
/// `gcd(a, 0) = a` and `gcd(a, b) = gcd(b, a mod b)`.
pub open spec fn gcd(a: nat, b: nat) -> nat
    decreases b,
{
    if b == 0 {
        a
    } else {
        gcd(b, a % b)
    }
}

/// The Bezout coefficient that the extended Euclidean algorithm computes, kept modulo `p`:
/// from remainders `r0`, `r1` and coefficients `t0`, `t1`, step to `r1`, `r0 mod r1` and
/// `t1`, `t0 - (r0 / r1) * t1`, until the remainder is zero.
pub open spec fn euclid_coefficient(r0: nat, r1: nat, t0: int, t1: int, p: int) -> int
    decreases r1,
{
    if r1 == 0 {
        t0
    } else {
        euclid_coefficient(r1, r0 % r1, t1, (t0 - (r0 / r1) as int * t1) % p, p)
    }
}

/// The inverse of `a` modulo `p` that the extended Euclidean algorithm on `(p, a)` gives;
/// zero for zero.
pub open spec fn inverse(a: nat, p: nat) -> nat {
    if a == 0 {
        0
    } else {
        (euclid_coefficient(p, a, 0, 1, p as int) % (p as int)) as nat
    }
}

/// `p` is a prime number: greater than one, with no divisor strictly between one and itself.
pub open spec fn is_prime(p: nat) -> bool {
    &&& p > 1
    &&& forall|d: nat| 1 < d < p ==> #[trigger] (p % d) != 0
}

/// The greatest common divisor of two numbers, not both zero, is positive and divides both.
pub proof fn lemma_gcd_divides(a: nat, b: nat)
    requires
        a > 0 || b > 0,
    ensures
        gcd(a, b) > 0,
        a % gcd(a, b) == 0,
        b % gcd(a, b) == 0,
    decreases b,
{
    if b == 0 {
        lemma_mod_self_0(a as int);
        lemma_small_mod(0, a);
    } else {
        let r = a % b;
        lemma_gcd_divides(b, r);
        let g = gcd(b, r);
        let q = a / b;
        lemma_fundamental_div_mod(a as int, b as int);
        assert(a as int == b as int * q as int + r as int);
        assert((b as int * q as int) % (g as int) == 0) by {
            lemma_mul_mod_noop_left(b as int, q as int, g as int);
            lemma_mul_basics(q as int);
            lemma_small_mod(0, g);
        }
        lemma_add_mod_noop(b as int * q as int, r as int, g as int);
        lemma_small_mod(0, g);
    }
}

/// A positive number is at least as large as each of its divisors.
proof fn lemma_divisor_bound(n: nat, d: nat)
    requires
        n > 0,
        d > 0,
        n % d == 0,
    ensures
        d <= n,
{
    if d > n {
        lemma_small_mod(n, d);
    }
}

/// A number strictly between zero and a prime `p` is coprime to `p`.
pub proof fn lemma_prime_coprime(p: nat, a: nat)
    requires
        is_prime(p),
        0 < a < p,
    ensures
        gcd(p, a) == 1,
{
    lemma_gcd_divides(p, a);
    let g = gcd(p, a);
    lemma_divisor_bound(a, g);
    if g != 1 {
        assert(1 < g < p);
        assert(p % g != 0);
    }
}

/// One step of the extended Euclidean algorithm keeps `a * t == r` modulo `m`.
pub proof fn lemma_euclid_step(a: int, t0: int, t1: int, t2: int, r0: int, r1: int, r2: int, q: int, m: int)
    requires
        m > 0,
        (a * t0) % m == r0 % m,
        (a * t1) % m == r1 % m,
        r0 == r1 * q + r2,
        t2 % m == (t0 - q * t1) % m,
    ensures
        (a * t2) % m == r2 % m,
{
    lemma_mul_mod_noop_right(a, t2, m);
    lemma_mul_mod_noop_right(a, t0 - q * t1, m);
    assert(a * (t0 - q * t1) == a * t0 - q * (a * t1)) by (nonlinear_arith);
    lemma_sub_mod_noop(a * t0, q * (a * t1), m);
    lemma_mul_mod_noop_right(q, a * t1, m);
    lemma_mul_mod_noop_right(q, r1, m);
    lemma_sub_mod_noop(r0, q * r1, m);
    assert(r0 - q * r1 == r2) by (nonlinear_arith)
        requires
            r0 == r1 * q + r2,
    ;
}

/// The coefficient that the extended Euclidean algorithm computes from a state that keeps
/// `a * t == r` modulo `p` multiplies `a` to the greatest common divisor.
pub proof fn lemma_euclid_coefficient(a: int, r0: nat, r1: nat, t0: int, t1: int, p: int)
    requires
        p > 0,
        (a * t0) % p == (r0 as int) % p,
        (a * t1) % p == (r1 as int) % p,
    ensures
        (a * euclid_coefficient(r0, r1, t0, t1, p)) % p == (gcd(r0, r1) as int) % p,
    decreases r1,
{
    if r1 != 0 {
        let q = (r0 / r1) as int;
        let r2 = r0 % r1;
        let t2 = (t0 - q * t1) % p;
        lemma_fundamental_div_mod(r0 as int, r1 as int);
        lemma_mod_twice(t0 - q * t1, p);
        lemma_euclid_step(a, t0, t1, t2, r0 as int, r1 as int, r2 as int, q, p);
        lemma_euclid_coefficient(a, r1, r2, t1, t2, p);
    }
}

/// The inverse that the extended Euclidean algorithm gives multiplies a nonzero residue
/// to its greatest common divisor with `p`; to one when they are coprime.
pub proof fn lemma_inverse(a: nat, p: nat)
    requires
        0 < a < p,
    ensures
        inverse(a, p) < p,
        (a * inverse(a, p)) % p == gcd(p, a) % p,
        gcd(p, a) == 1 ==> (a * inverse(a, p)) % p == 1,
        is_prime(p) ==> (a * inverse(a, p)) % p == 1,
{
    lemma_small_mod(0, p);
    lemma_small_mod(1, p);
    lemma_small_mod(a, p);
    lemma_mod_self_0(p as int);
    assert(a as int * 0 == 0);
    lemma_euclid_coefficient(a as int, p, a, 0, 1, p as int);
    let t = euclid_coefficient(p, a, 0, 1, p as int);
    lemma_mod_bound(t, p as int);
    lemma_mul_mod_noop_right(a as int, t, p as int);
    if is_prime(p) {
        lemma_prime_coprime(p, a);
    }
}

} // verus!
