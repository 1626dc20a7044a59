//! Elements of the integers modulo `ORDER`, a field when `ORDER` is prime.

use vstd::prelude::*;
use vstd::arithmetic::div_mod::*;
use vstd::arithmetic::power::*;
use crate::math::modular::{
    euclid_coefficient, gcd, inverse, is_prime, lemma_euclid_step, lemma_prime_coprime,
};

verus! {

/// `(a + b) mod m` for residues `a`, `b` below `m`, without overflow.
fn add_mod(a: u128, b: u128, m: u128) -> (r: u128)
    requires
        a < m,
        b < m,
    ensures
        r < m,
        r as int == (a as int + b as int) % (m as int),
{
    if a >= m - b {
        let r: u128 = a - (m - b);
        proof {
            lemma_mod_add_multiples_vanish(r as int, m as int);
            lemma_small_mod(r as nat, m as nat);
        }
        r
    } else {
        let r: u128 = a + b;
        proof {
            lemma_small_mod(r as nat, m as nat);
        }
        r
    }
}

/// `(a - b) mod m` for residues `a`, `b` below `m`, without underflow.
fn sub_mod(a: u128, b: u128, m: u128) -> (r: u128)
    requires
        a < m,
        b < m,
    ensures
        r < m,
        r as int == (a as int - b as int) % (m as int),
{
    if a >= b {
        let r: u128 = a - b;
        proof {
            lemma_small_mod(r as nat, m as nat);
        }
        r
    } else {
        let r: u128 = a + (m - b);
        proof {
            lemma_mod_add_multiples_vanish(a as int - b as int, m as int);
            lemma_small_mod(r as nat, m as nat);
        }
        r
    }
}

/// One step of multiplication by doubling and adding keeps `result + x * y` fixed modulo `m`.
proof fn lemma_double_and_add_step(r0: int, x0: int, y0: int, bit: int, r1: int, x1: int, y1: int, m: int)
    requires
        m > 0,
        bit == 0 || bit == 1,
        y0 == 2 * y1 + bit,
        r1 % m == (r0 + bit * x0) % m,
        x1 % m == (2 * x0) % m,
    ensures
        (r1 + x1 * y1) % m == (r0 + x0 * y0) % m,
{
    lemma_add_mod_noop(r1, x1 * y1, m);
    lemma_mul_mod_noop_left(x1, y1, m);
    lemma_mul_mod_noop_left(2 * x0, y1, m);
    lemma_add_mod_noop(r0 + bit * x0, 2 * x0 * y1, m);
    assert(r0 + bit * x0 + 2 * x0 * y1 == r0 + x0 * y0) by (nonlinear_arith)
        requires
            y0 == 2 * y1 + bit,
    ;
}

/// `(a * b) mod m` for residues `a`, `b` below `m`, by doubling and adding, without overflow.
fn mul_mod(a: u128, b: u128, m: u128) -> (r: u128)
    requires
        a < m,
        b < m,
    ensures
        r < m,
        r as int == (a as int * b as int) % (m as int),
{
    let mut result: u128 = 0;
    let mut x: u128 = a;
    let mut y: u128 = b;
    while y > 0
        invariant
            m > 0,
            result < m,
            x < m,
            (result as int + x as int * y as int) % (m as int) == (a as int * b as int) % (m as int),
        decreases y,
    {
        let ghost r0 = result as int;
        let ghost x0 = x as int;
        let ghost y0 = y as int;
        let bit: u128 = y % 2;
        if bit == 1 {
            result = add_mod(result, x, m);
        } else {
            proof {
                lemma_small_mod(result as nat, m as nat);
            }
        }
        x = add_mod(x, x, m);
        y = y / 2;
        proof {
            lemma_mod_twice(r0 + bit as int * x0, m as int);
            lemma_mod_twice(2 * x0, m as int);
            lemma_double_and_add_step(r0, x0, y0, bit as int, result as int, x as int, y as int, m as int);
        }
    }
    proof {
        lemma_small_mod(result as nat, m as nat);
    }
    result
}

/// One step of exponentiation by squaring keeps `result * base^e` fixed modulo `m`.
proof fn lemma_square_and_multiply_step(
    r0: int,
    b0: int,
    e0: nat,
    bit: nat,
    r1: int,
    b1: int,
    e1: nat,
    m: int,
)
    requires
        m > 0,
        bit == 0 || bit == 1,
        e0 == 2 * e1 + bit,
        r1 % m == (r0 * pow(b0, bit)) % m,
        b1 % m == (b0 * b0) % m,
    ensures
        (r1 * pow(b1, e1)) % m == (r0 * pow(b0, e0)) % m,
{
    lemma_mul_mod_noop(r1, pow(b1, e1), m);
    lemma_pow_mod_noop(b1, e1, m);
    lemma_pow_mod_noop(b0 * b0, e1, m);
    lemma_square_is_pow2(b0);
    lemma_pow_multiplies(b0, 2, e1);
    lemma_mul_mod_noop(r0 * pow(b0, bit), pow(b0, 2 * e1), m);
    lemma_pow_adds(b0, bit, 2 * e1);
    vstd::arithmetic::mul::lemma_mul_is_associative(r0, pow(b0, bit), pow(b0, 2 * e1));
    assert(bit + 2 * e1 == e0);
}

/// If `b * i == 1` modulo `m`, then `(x * i) * b == x` modulo `m`.
proof fn lemma_cancel_inverse(x: int, i: int, b: int, m: int)
    requires
        m > 0,
        (b * i) % m == 1,
    ensures
        (((x * i) % m) * b) % m == x % m,
{
    lemma_mul_mod_noop_left(x * i, b, m);
    assert((x * i) * b == x * (b * i)) by (nonlinear_arith);
    lemma_mul_mod_noop_right(x, b * i, m);
    vstd::arithmetic::mul::lemma_mul_basics(x);
}

/// An element of the integers modulo `ORDER`: a residue `value` with `value < ORDER`.
/// When `ORDER` is prime these are the elements of a finite field.
#[derive(Clone, Copy, Debug, Eq)]
pub struct FieldElement<const ORDER: u128> {
    value: u128,
}

impl<const ORDER: u128> View for FieldElement<ORDER> {
    type V = nat;

    /// The residue that the element stands for.
    closed spec fn view(&self) -> nat {
        self.value as nat
    }
}

impl<const ORDER: u128> FieldElement<ORDER> {
    #[verifier::type_invariant]
    pub(crate) open spec fn reduced(self) -> bool {
        self@ < ORDER
    }

    /// The element that `value` stands for: its residue modulo `ORDER`.
    pub fn new(value: u128) -> (r: Self)
        requires
            ORDER > 0,
        ensures
            r@ == value as nat % (ORDER as nat),
            r@ < ORDER,
    {
        FieldElement { value: value % ORDER }
    }

    /// The residue of this element, below `ORDER`.
    pub fn value(&self) -> (r: u128)
        ensures
            r == self@,
            r < ORDER,
    {
        proof {
            use_type_invariant(self);
        }
        self.value
    }

    /// The additive identity.
    pub fn zero() -> (r: Self)
        requires
            ORDER > 0,
        ensures
            r@ == 0,
    {
        FieldElement { value: 0 }
    }

    /// The multiplicative identity (which is zero when `ORDER` is one).
    pub fn one() -> (r: Self)
        requires
            ORDER > 0,
        ensures
            r@ == 1nat % (ORDER as nat),
    {
        FieldElement { value: 1 % ORDER }
    }

    /// Sum modulo `ORDER`.
    pub fn add_element(self, other: Self) -> (r: Self)
        ensures
            r@ as int == (self@ as int + other@ as int) % (ORDER as int),
            r@ < ORDER,
    {
        proof {
            use_type_invariant(&self);
            use_type_invariant(&other);
        }
        FieldElement { value: add_mod(self.value, other.value, ORDER) }
    }

    /// Difference modulo `ORDER`.
    pub fn sub_element(self, other: Self) -> (r: Self)
        ensures
            r@ as int == (self@ as int - other@ as int) % (ORDER as int),
            r@ < ORDER,
    {
        proof {
            use_type_invariant(&self);
            use_type_invariant(&other);
        }
        FieldElement { value: sub_mod(self.value, other.value, ORDER) }
    }

    /// Additive inverse modulo `ORDER`.
    pub fn neg_element(self) -> (r: Self)
        ensures
            r@ as int == (-(self@ as int)) % (ORDER as int),
            r@ < ORDER,
    {
        proof {
            use_type_invariant(&self);
        }
        FieldElement { value: sub_mod(0, self.value, ORDER) }
    }

    /// Product modulo `ORDER`.
    pub fn mul_element(self, other: Self) -> (r: Self)
        ensures
            r@ as int == (self@ as int * other@ as int) % (ORDER as int),
            r@ < ORDER,
    {
        proof {
            use_type_invariant(&self);
            use_type_invariant(&other);
        }
        FieldElement { value: mul_mod(self.value, other.value, ORDER) }
    }

    /// `self` raised to `exponent`, modulo `ORDER` (with `x^0 = 1`).
    pub fn pow(self, exponent: u128) -> (r: Self)
        ensures
            r@ as int == pow(self@ as int, exponent as nat) % (ORDER as int),
            r@ < ORDER,
    {
        proof {
            use_type_invariant(&self);
            lemma_mul_mod_noop_left(1, pow(self.value as int, exponent as nat), ORDER as int);
        }
        let mut result: u128 = 1 % ORDER;
        let mut base: u128 = self.value;
        let mut e: u128 = exponent;
        while e > 0
            invariant
                ORDER > 0,
                result < ORDER,
                base < ORDER,
                (result as int * pow(base as int, e as nat)) % (ORDER as int) == pow(
                    self.value as int,
                    exponent as nat,
                ) % (ORDER as int),
            decreases e,
        {
            let ghost r0 = result as int;
            let ghost b0 = base as int;
            let ghost e0 = e as nat;
            let bit: u128 = e % 2;
            if bit == 1 {
                result = mul_mod(result, base, ORDER);
                proof {
                    lemma_pow1(b0);
                    lemma_mod_twice(r0 * b0, ORDER as int);
                }
            } else {
                proof {
                    lemma_pow0(b0);
                }
            }
            base = mul_mod(base, base, ORDER);
            e = e / 2;
            proof {
                lemma_mod_twice(b0 * b0, ORDER as int);
                lemma_square_and_multiply_step(
                    r0,
                    b0,
                    e0,
                    bit as nat,
                    result as int,
                    base as int,
                    e as nat,
                    ORDER as int,
                );
            }
        }
        proof {
            lemma_pow0(base as int);
            lemma_small_mod(result as nat, ORDER as nat);
        }
        FieldElement { value: result }
    }

    /// The multiplicative inverse, by the extended Euclidean algorithm on `(ORDER, self)`.
    /// Zero maps to zero. When `self` is coprime to `ORDER` (always, for nonzero `self`
    /// and prime `ORDER`), `self * r` is one; otherwise `self * r` is `gcd(ORDER, self)`.
    pub fn inv(self) -> (r: Self)
        ensures
            r@ == inverse(self@, ORDER as nat),
            r@ < ORDER,
            self@ == 0 ==> r@ == 0,
            self@ != 0 ==> (self@ * r@) % (ORDER as nat) == gcd(ORDER as nat, self@) % (ORDER as nat),
            self@ != 0 && gcd(ORDER as nat, self@) == 1 ==> (self@ * r@) % (ORDER as nat) == 1,
            is_prime(ORDER as nat) && self@ != 0 ==> (self@ * r@) % (ORDER as nat) == 1,
    {
        proof {
            use_type_invariant(&self);
        }
        let a: u128 = self.value;
        if a == 0 {
            return FieldElement { value: 0 };
        }
        let mut r0: u128 = ORDER;
        let mut r1: u128 = a;
        let mut t0: u128 = 0;
        let mut t1: u128 = 1;
        proof {
            lemma_small_mod(1, ORDER as nat);
            lemma_small_mod(a as nat, ORDER as nat);
            lemma_mod_self_0(ORDER as int);
            lemma_small_mod(0, ORDER as nat);
            assert(a as int * 0 == 0);
        }
        while r1 != 0
            invariant
                0 < a < ORDER,
                t0 < ORDER,
                t1 < ORDER,
                r1 < r0,
                gcd(r0 as nat, r1 as nat) == gcd(ORDER as nat, a as nat),
                euclid_coefficient(r0 as nat, r1 as nat, t0 as int, t1 as int, ORDER as int)
                    == euclid_coefficient(ORDER as nat, a as nat, 0, 1, ORDER as int),
                (a as int * t0 as int) % (ORDER as int) == (r0 as int) % (ORDER as int),
                (a as int * t1 as int) % (ORDER as int) == (r1 as int) % (ORDER as int),
            decreases r1,
        {
            let q: u128 = r0 / r1;
            let r2: u128 = r0 % r1;
            let qt: u128 = mul_mod(q % ORDER, t1, ORDER);
            let t2: u128 = sub_mod(t0, qt, ORDER);
            proof {
                lemma_fundamental_div_mod(r0 as int, r1 as int);
                lemma_mul_mod_noop_left(q as int, t1 as int, ORDER as int);
                lemma_sub_mod_noop_right(t0 as int, q as int * t1 as int, ORDER as int);
                lemma_small_mod(t2 as nat, ORDER as nat);
                lemma_euclid_step(
                    a as int,
                    t0 as int,
                    t1 as int,
                    t2 as int,
                    r0 as int,
                    r1 as int,
                    r2 as int,
                    q as int,
                    ORDER as int,
                );
            }
            r0 = r1;
            r1 = r2;
            t0 = t1;
            t1 = t2;
        }
        proof {
            if is_prime(ORDER as nat) {
                lemma_prime_coprime(ORDER as nat, a as nat);
            }
            lemma_small_mod(1, ORDER as nat);
            lemma_small_mod(t0 as nat, ORDER as nat);
        }
        FieldElement { value: t0 }
    }

    /// `self` times the inverse of `other` (see `inv`); zero when `other` is zero.
    pub fn div_element(self, other: Self) -> (r: Self)
        ensures
            r@ as int == (self@ as int * inverse(other@, ORDER as nat) as int) % (ORDER as int),
            r@ < ORDER,
            other@ == 0 ==> r@ == 0,
            self@ == 0 ==> r@ == 0,
            other@ != 0 && gcd(ORDER as nat, other@) == 1 ==> (r@ * other@) % (ORDER as nat) == self@,
            is_prime(ORDER as nat) && other@ != 0 ==> (r@ * other@) % (ORDER as nat) == self@,
    {
        proof {
            use_type_invariant(&self);
            use_type_invariant(&other);
        }
        let i = other.inv();
        let r = self.mul_element(i);
        proof {
            lemma_small_mod(0, ORDER as nat);
            if other@ == 0 {
                assert(self@ as int * 0 == 0);
            }
            if self@ == 0 {
                assert(0 * i@ as int == 0);
            }
            if other@ != 0 && (is_prime(ORDER as nat) || gcd(ORDER as nat, other@) == 1) {
                lemma_cancel_inverse(self@ as int, i@ as int, other@ as int, ORDER as int);
                lemma_small_mod(self@, ORDER as nat);
            }
        }
        r
    }
}

impl<const ORDER: u128> PartialEq for FieldElement<ORDER> {
    fn eq(&self, other: &Self) -> (r: bool) {
        self.value == other.value
    }
}

impl<const ORDER: u128> vstd::std_specs::cmp::PartialEqSpecImpl for FieldElement<ORDER> {
    open spec fn obeys_eq_spec() -> bool {
        true
    }

    open spec fn eq_spec(&self, other: &Self) -> bool {
        self@ == other@
    }
}

impl<const ORDER: u128> std::ops::Add for FieldElement<ORDER> {
    type Output = FieldElement<ORDER>;

    /// Sum modulo `ORDER`.
    fn add(self, other: Self) -> (r: Self)
        ensures
            r@ as int == (self@ as int + other@ as int) % (ORDER as int),
            r@ < ORDER,
    {
        self.add_element(other)
    }
}

impl<const ORDER: u128> vstd::std_specs::ops::AddSpecImpl for FieldElement<ORDER> {
    /// The contract of `add` above states the result.
    open spec fn obeys_add_spec() -> bool {
        false
    }

    open spec fn add_req(self, rhs: Self) -> bool {
        true
    }

    open spec fn add_spec(self, rhs: Self) -> Self {
        arbitrary()
    }
}

impl<const ORDER: u128> std::ops::Sub for FieldElement<ORDER> {
    type Output = FieldElement<ORDER>;

    /// Difference modulo `ORDER`.
    fn sub(self, other: Self) -> (r: Self)
        ensures
            r@ as int == (self@ as int - other@ as int) % (ORDER as int),
            r@ < ORDER,
    {
        self.sub_element(other)
    }
}

impl<const ORDER: u128> vstd::std_specs::ops::SubSpecImpl for FieldElement<ORDER> {
    /// The contract of `sub` above states the result.
    open spec fn obeys_sub_spec() -> bool {
        false
    }

    open spec fn sub_req(self, rhs: Self) -> bool {
        true
    }

    open spec fn sub_spec(self, rhs: Self) -> Self {
        arbitrary()
    }
}

impl<const ORDER: u128> std::ops::Mul for FieldElement<ORDER> {
    type Output = FieldElement<ORDER>;

    /// Product modulo `ORDER`.
    fn mul(self, other: Self) -> (r: Self)
        ensures
            r@ as int == (self@ as int * other@ as int) % (ORDER as int),
            r@ < ORDER,
    {
        self.mul_element(other)
    }
}

impl<const ORDER: u128> vstd::std_specs::ops::MulSpecImpl for FieldElement<ORDER> {
    /// The contract of `mul` above states the result.
    open spec fn obeys_mul_spec() -> bool {
        false
    }

    open spec fn mul_req(self, rhs: Self) -> bool {
        true
    }

    open spec fn mul_spec(self, rhs: Self) -> Self {
        arbitrary()
    }
}

impl<const ORDER: u128> std::ops::Div for FieldElement<ORDER> {
    type Output = FieldElement<ORDER>;

    /// Quotient: `self` times the inverse of `other` (see `inv`).
    fn div(self, other: Self) -> (r: Self)
        ensures
            r@ as int == (self@ as int * inverse(other@, ORDER as nat) as int) % (ORDER as int),
            r@ < ORDER,
            other@ == 0 ==> r@ == 0,
            self@ == 0 ==> r@ == 0,
            other@ != 0 && gcd(ORDER as nat, other@) == 1 ==> (r@ * other@) % (ORDER as nat) == self@,
            is_prime(ORDER as nat) && other@ != 0 ==> (r@ * other@) % (ORDER as nat) == self@,
    {
        self.div_element(other)
    }
}

impl<const ORDER: u128> vstd::std_specs::ops::DivSpecImpl for FieldElement<ORDER> {
    /// The contract of `div` above states the result.
    open spec fn obeys_div_spec() -> bool {
        false
    }

    open spec fn div_req(self, rhs: Self) -> bool {
        true
    }

    open spec fn div_spec(self, rhs: Self) -> Self {
        arbitrary()
    }
}

impl<const ORDER: u128> std::ops::Neg for FieldElement<ORDER> {
    type Output = FieldElement<ORDER>;

    /// Additive inverse modulo `ORDER`.
    fn neg(self) -> (r: Self)
        ensures
            r@ as int == (-(self@ as int)) % (ORDER as int),
            r@ < ORDER,
    {
        self.neg_element()
    }
}

impl<const ORDER: u128> vstd::std_specs::ops::NegSpecImpl for FieldElement<ORDER> {
    /// The contract of `neg` above states the result.
    open spec fn obeys_neg_spec() -> bool {
        false
    }

    open spec fn neg_req(self) -> bool {
        true
    }

    open spec fn neg_spec(self) -> Self {
        arbitrary()
    }
}

} // verus!
