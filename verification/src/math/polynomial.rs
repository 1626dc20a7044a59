//! Polynomials with coefficients in the integers modulo `ORDER`.

use vstd::prelude::*;
use vstd::arithmetic::div_mod::*;
use vstd::arithmetic::power::pow;
use crate::math::algebra::{
    add_coeffs, all_below, coeff, degree, eval_term, is_trimmed, lagrange, lagrange_factor,
    lagrange_term, lemma_add_coeff, lemma_add_zero, lemma_division_shrinks, lemma_division_step,
    lemma_division_zero, lemma_monomial_coeff, lemma_mul_coeff, lemma_mul_coeff_zero, lemma_mul_len,
    lemma_mul_trim_left, lemma_neg_coeff, lemma_trim, lemma_trim_unique, lemma_trimmed_ext,
    lemma_trimmed_len_bound, max_len, monomial, monomial_coeffs, mul_term, pad, poly_add, poly_eval,
    poly_mul, poly_neg, poly_sub, sum, trim,
};
use crate::math::field_element::FieldElement;
use crate::math::modular::gcd;

verus! {

/// The residues of a sequence of field elements.
pub open spec fn values<const ORDER: u128>(v: Seq<FieldElement<ORDER>>) -> Seq<nat> {
    v.map_values(|e: FieldElement<ORDER>| e@)
}

/// A nonempty polynomial has residues below `ORDER`, so `ORDER` is positive.
proof fn lemma_pos_order<const ORDER: u128>(p: &Polynomial<ORDER>)
    requires
        p@.len() > 0,
        all_below(p@, ORDER as nat),
    ensures
        ORDER > 0,
{
    assert(p@[0] < ORDER);
}

/// A polynomial `c0 + c1*x + c2*x^2 + ...` over the integers modulo `ORDER`, stored as its
/// coefficients, lowest degree first.
#[derive(Debug, PartialEq, Eq)]
pub struct Polynomial<const ORDER: u128> {
    // coefficients[0] is the smallest coefficient
    coefficients: Vec<FieldElement<ORDER>>,
}

impl<const ORDER: u128> View for Polynomial<ORDER> {
    type V = Seq<nat>;

    /// The residues of the coefficients, lowest degree first.
    closed spec fn view(&self) -> Seq<nat> {
        values(self.coefficients@)
    }
}

impl<const ORDER: u128> Polynomial<ORDER> {
    #[verifier::type_invariant]
    spec fn reduced(self) -> bool {
        all_below(values(self.coefficients@), ORDER as nat)
    }

    /// Wraps coefficients already known to be residues.
    fn from_vec(coefficients: Vec<FieldElement<ORDER>>) -> (r: Self)
        requires
            all_below(values(coefficients@), ORDER as nat),
        ensures
            r@ == values(coefficients@),
    {
        Polynomial { coefficients }
    }

    /// Creates a new polynomial with the given coefficients, without the zero
    /// coefficients at the end.
    pub fn new(coefficients: Vec<FieldElement<ORDER>>) -> (r: Self)
        ensures
            r@ == trim(values(coefficients@)),
            all_below(r@, ORDER as nat),
    {
        let mut coefficients = coefficients;
        let ghost given = values(coefficients@);
        let mut i: usize = 0;
        while i < coefficients.len()
            invariant
                i <= coefficients.len(),
                given == values(coefficients@),
                forall|j: int| 0 <= j < i ==> #[trigger] given[j] < ORDER,
            decreases coefficients.len() - i,
        {
            let c = &coefficients[i];
            proof {
                use_type_invariant(c);
            }
            i = i + 1;
        }
        // Removes the unneeded zero coefficients at the end
        let mut n: usize = coefficients.len();
        while n > 0 && coefficients[n - 1].value() == 0
            invariant
                n <= coefficients.len(),
                given == values(coefficients@),
                forall|j: int| n <= j < coefficients.len() ==> #[trigger] given[j] == 0,
            decreases n,
        {
            n = n - 1;
        }
        coefficients.truncate(n);
        proof {
            let t = values(coefficients@);
            assert forall|j: int| #[trigger] coeff(t, j) == coeff(given, j) by {
                if 0 <= j < n {
                    assert(t[j] == given[j]);
                }
            }
            lemma_trim_unique(given, t);
            assert forall|j: int| 0 <= j < t.len() implies #[trigger] t[j] < ORDER by {
                assert(t[j] == given[j]);
            }
        }
        Polynomial { coefficients }
    }

    /// The polynomial `coefficient * x^degree`.
    pub fn new_monomial(coefficient: FieldElement<ORDER>, degree: usize) -> (r: Self)
        ensures
            r@ == monomial(coefficient@, degree as nat),
    {
        proof {
            use_type_invariant(&coefficient);
        }
        let mut coefficients: Vec<FieldElement<ORDER>> = Vec::new();
        let mut i: usize = 0;
        while i < degree
            invariant
                ORDER > 0,
                i <= degree,
                coefficients@.len() == i,
                forall|j: int| 0 <= j < i ==> #[trigger] coefficients@[j]@ == 0,
            decreases degree - i,
        {
            coefficients.push(FieldElement::zero());
            i = i + 1;
        }
        coefficients.push(coefficient);
        proof {
            assert(values(coefficients@) =~= monomial_coeffs(coefficient@, degree as nat));
        }
        Self::new(coefficients)
    }

    /// The zero polynomial: no coefficients.
    pub fn zero() -> (r: Self)
        ensures
            r@ == Seq::<nat>::empty(),
    {
        let v: Vec<FieldElement<ORDER>> = Vec::new();
        proof {
            assert(values(v@) =~= Seq::<nat>::empty());
        }
        Self::new(v)
    }

    /// The index of the last coefficient; zero for the zero polynomial.
    pub fn degree(&self) -> (r: usize)
        ensures
            r == degree(self@),
    {
        if self.coefficients.len() == 0 {
            0
        } else {
            self.coefficients.len() - 1
        }
    }

    /// The last coefficient; zero for the zero polynomial.
    pub fn last_coefficient(&self) -> (r: FieldElement<ORDER>)
        requires
            ORDER > 0,
        ensures
            r@ == coeff(self@, self@.len() - 1),
    {
        if self.coefficients.len() == 0 {
            FieldElement::zero()
        } else {
            self.coefficients[self.coefficients.len() - 1]
        }
    }

    /// Returns coefficients of the polynomial as an array
    /// \[c0,c1,c2 .. cn\]
    /// that represents the polynomial
    /// c0 + c1*x + c2*x^2 ... cn
    pub fn coefficients(&self) -> (r: &[FieldElement<ORDER>])
        ensures
            values(r@) == self@,
            all_below(self@, ORDER as nat),
    {
        proof {
            use_type_invariant(self);
        }
        self.coefficients.as_slice()
    }

    /// Returns two new polynomials with the same amount of coefficients
    /// for temporal use
    pub fn pad_with_zero_coefficients(pa: &Polynomial<ORDER>, pb: &Polynomial<ORDER>) -> (r: (
        Polynomial<ORDER>,
        Polynomial<ORDER>,
    ))
        ensures
            r.0@ == pad(pa@, max_len(pa@, pb@)),
            r.1@ == pad(pb@, max_len(pa@, pb@)),
    {
        proof {
            use_type_invariant(pa);
            use_type_invariant(pb);
        }
        let n: usize = if pa.coefficients.len() > pb.coefficients.len() {
            pa.coefficients.len()
        } else {
            pb.coefficients.len()
        };
        proof {
            if n > 0 {
                if pa@.len() > 0 {
                    assert(pa@[0] < ORDER);
                } else {
                    assert(pb@[0] < ORDER);
                }
            }
        }
        (Self::padded(pa, n), Self::padded(pb, n))
    }

    /// `p` followed by zero coefficients up to `n` coefficients in all.
    fn padded(p: &Polynomial<ORDER>, n: usize) -> (r: Polynomial<ORDER>)
        requires
            p@.len() <= n,
            n > 0 ==> ORDER > 0,
        ensures
            r@ == pad(p@, n as nat),
    {
        proof {
            use_type_invariant(p);
        }
        let mut coefficients: Vec<FieldElement<ORDER>> = Vec::new();
        let mut i: usize = 0;
        while i < n
            invariant
                i <= n,
                n > 0 ==> ORDER > 0,
                p@.len() <= n,
                p@ == values(p.coefficients@),
                all_below(p@, ORDER as nat),
                values(coefficients@) == pad(p@, i as nat),
            decreases n - i,
        {
            let e = if i < p.coefficients.len() {
                p.coefficients[i]
            } else {
                FieldElement::zero()
            };
            let ghost before = coefficients@;
            coefficients.push(e);
            proof {
                assert(values(coefficients@) =~= values(before).push(e@));
            }
            i = i + 1;
            assert(values(coefficients@) =~= pad(p@, i as nat));
        }
        proof {
            assert forall|j: int| 0 <= j < n implies #[trigger] values(coefficients@)[j] < ORDER by {
                assert(values(coefficients@)[j] == coeff(p@, j));
            }
        }
        Self::from_vec(coefficients)
    }

    /// The sum `self + other`, coefficient by coefficient.
    fn add_polynomial(&self, other: &Polynomial<ORDER>) -> (r: Polynomial<ORDER>)
        ensures
            r@ == poly_add(self@, other@, ORDER as nat),
    {
        let (pa, pb) = Polynomial::pad_with_zero_coefficients(self, other);
        proof {
            use_type_invariant(&pa);
            assert(pa@.len() == max_len(self@, other@));
            assert(pb@.len() == max_len(self@, other@));
        }
        let n: usize = pa.coefficients.len();
        let mut coefficients: Vec<FieldElement<ORDER>> = Vec::new();
        let mut i: usize = 0;
        while i < n
            invariant
                i <= n,
                n == pa@.len(),
                n == pb@.len(),
                pa@ == values(pa.coefficients@),
                pb@ == values(pb.coefficients@),
                pa@ == pad(self@, n as nat),
                pb@ == pad(other@, n as nat),
                coefficients@.len() == i,
                forall|j: int|
                    0 <= j < i ==> #[trigger] values(coefficients@)[j] == (coeff(self@, j) + coeff(other@, j)) % (
                    ORDER as nat),
            decreases n - i,
        {
            let e = pa.coefficients[i] + pb.coefficients[i];
            let ghost before = coefficients@;
            coefficients.push(e);
            proof {
                assert(values(coefficients@) =~= values(before).push(e@));
                assert(coeff(self@, i as int) == pa@[i as int]);
                assert(coeff(other@, i as int) == pb@[i as int]);
            }
            i = i + 1;
        }
        let r = Self::new(coefficients);
        proof {
            if n > 0 {
                let v = values(coefficients@);
                assert(ORDER > 0) by {
                    lemma_pos_order(&pa);
                }
                lemma_add_coeff(self@, other@, ORDER as nat);
                lemma_trim(v);
                assert forall|j: int| #[trigger] coeff(r@, j) == coeff(poly_add(self@, other@, ORDER as nat), j) by {
                    if !(0 <= j < n) {
                        lemma_small_mod(0, ORDER as nat);
                    }
                }
                lemma_trimmed_ext(r@, poly_add(self@, other@, ORDER as nat));
            } else {
                assert(self@.len() == 0 && other@.len() == 0);
                assert(add_coeffs(self@, other@, ORDER as nat).len() == 0);
                lemma_trim(add_coeffs(self@, other@, ORDER as nat));
                assert(values(coefficients@) =~= Seq::<nat>::empty());
                lemma_trim(values(coefficients@));
                assert(r@.len() == 0);
                assert(poly_add(self@, other@, ORDER as nat).len() == 0);
                assert(r@ =~= poly_add(self@, other@, ORDER as nat));
            }
        }
        r
    }

    /// The negation `-self`, coefficient by coefficient.
    fn neg_polynomial(&self) -> (r: Polynomial<ORDER>)
        ensures
            r@ == poly_neg(self@, ORDER as nat),
    {
        proof {
            use_type_invariant(self);
        }
        let n: usize = self.coefficients.len();
        let mut coefficients: Vec<FieldElement<ORDER>> = Vec::new();
        let mut i: usize = 0;
        while i < n
            invariant
                i <= n,
                n == self@.len(),
                self@ == values(self.coefficients@),
                coefficients@.len() == i,
                forall|j: int|
                    0 <= j < i ==> #[trigger] values(coefficients@)[j] as int == (-(self@[j] as int)) % (
                    ORDER as int),
            decreases n - i,
        {
            let e = self.coefficients[i].neg_element();
            let ghost before = coefficients@;
            coefficients.push(e);
            proof {
                assert(values(coefficients@) =~= values(before).push(e@));
            }
            i = i + 1;
        }
        let r = Self::new(coefficients);
        proof {
            if n > 0 {
                let v = values(coefficients@);
                assert(ORDER > 0) by {
                    lemma_pos_order(self);
                }
                lemma_neg_coeff(self@, ORDER as nat);
                lemma_trim(v);
                assert forall|j: int| #[trigger] coeff(r@, j) == coeff(poly_neg(self@, ORDER as nat), j) by {
                    if !(0 <= j < n) {
                        lemma_small_mod(0, ORDER as nat);
                    }
                }
                lemma_trimmed_ext(r@, poly_neg(self@, ORDER as nat));
            } else {
                assert(poly_neg(self@, ORDER as nat) =~= Seq::<nat>::empty());
                assert(values(coefficients@) =~= Seq::<nat>::empty());
            }
        }
        r
    }

    /// The value of the polynomial at `x`: the sum of `c_i * x^i`, modulo `ORDER`.
    pub fn evaluate(&self, x: FieldElement<ORDER>) -> (r: FieldElement<ORDER>)
        ensures
            r@ as int == poly_eval(self@, x@ as int) % (ORDER as int),
    {
        proof {
            use_type_invariant(&x);
        }
        let n: usize = self.coefficients.len();
        let mut acc = FieldElement::zero();
        let mut i: usize = 0;
        proof {
            lemma_small_mod(0, ORDER as nat);
        }
        while i < n
            invariant
                ORDER > 0,
                i <= n,
                n == self@.len(),
                self@ == values(self.coefficients@),
                acc@ as int == sum(eval_term(self@, x@ as int), i as nat) % (ORDER as int),
            decreases n - i,
        {
            let c = self.coefficients[i];
            let power = x.pow(i as u128);
            let term = c * power;
            let ghost before = acc@ as int;
            acc = acc + term;
            proof {
                let pw = pow(x@ as int, i as nat);
                let s = sum(eval_term(self@, x@ as int), i as nat);
                assert(c@ == coeff(self@, i as int));
                lemma_mul_mod_noop_right(c@ as int, pw, ORDER as int);
                lemma_add_mod_noop(s, c@ as int * pw, ORDER as int);
                lemma_mod_twice(s, ORDER as int);
                lemma_mod_twice(c@ as int * pw, ORDER as int);
                assert(eval_term(self@, x@ as int)(i as int) == c@ as int * pw);
            }
            i = i + 1;
        }
        acc
    }

    /// The product `self * factor`: coefficient `k` is the sum of `self[k - i] * factor[i]`,
    /// modulo `ORDER`.
    pub fn mul_with_ref(&self, factor: &Self) -> (r: Self)
        requires
            ORDER > 0,
        ensures
            r@ == poly_mul(self@, factor@, ORDER as nat),
    {
        // degree(self) + degree(factor) + 1 zero coefficients, pushed in two runs so that
        // no sum of lengths is formed
        let self_degree: usize = self.degree();
        let factor_degree: usize = factor.degree();
        let ghost len: int = self_degree + factor_degree + 1;
        let mut coefficients: Vec<FieldElement<ORDER>> = Vec::new();
        let first: usize = if self.coefficients.len() == 0 {
            1
        } else {
            self.coefficients.len()
        };
        let mut z: usize = 0;
        while z < first
            invariant
                ORDER > 0,
                first == self_degree + 1,
                z <= first,
                coefficients@.len() == z,
                forall|k: int| 0 <= k < z ==> #[trigger] coefficients@[k]@ == 0,
            decreases first - z,
        {
            coefficients.push(FieldElement::zero());
            z = z + 1;
        }
        let mut z: usize = 0;
        while z < factor_degree
            invariant
                ORDER > 0,
                z <= factor_degree,
                coefficients@.len() == self_degree + 1 + z,
                forall|k: int| 0 <= k < coefficients@.len() ==> #[trigger] coefficients@[k]@ == 0,
            decreases factor_degree - z,
        {
            coefficients.push(FieldElement::zero());
            z = z + 1;
        }
        let _total: usize = coefficients.len();
        if self.coefficients.len() == 0 || factor.coefficients.len() == 0 {
            let zeros = vec![FieldElement::new(0)];
            let r = Polynomial::new(zeros);
            proof {
                lemma_small_mod(0, ORDER as nat);
                lemma_trim(values(zeros@));
                assert(values(zeros@).last() == 0);
                assert(values(zeros@).drop_last() =~= Seq::<nat>::empty());
                assert(r@ =~= poly_mul(self@, factor@, ORDER as nat));
            }
            r
        } else {
            let ghost s = self@;
            let ghost f = factor@;
            let mut i: usize = 0;
            while i < factor.coefficients.len()
                invariant
                    ORDER > 0,
                    s == self@,
                    f == factor@,
                    s == values(self.coefficients@),
                    f == values(factor.coefficients@),
                    s.len() > 0,
                    len == s.len() + f.len() - 1,
                    len <= usize::MAX,
                    i <= f.len(),
                    coefficients@.len() == len,
                    forall|k: int|
                        0 <= k < len ==> #[trigger] coefficients@[k]@ as int == sum(mul_term(s, f, k), i as nat) % (
                        ORDER as int),
                decreases f.len() - i,
            {
                let mut j: usize = 0;
                while j < self.coefficients.len()
                    invariant
                        ORDER > 0,
                        s == values(self.coefficients@),
                        f == values(factor.coefficients@),
                        len == s.len() + f.len() - 1,
                        len <= usize::MAX,
                        i < f.len(),
                        j <= s.len(),
                        coefficients@.len() == len,
                        forall|k: int|
                            0 <= k < len ==> #[trigger] coefficients@[k]@ as int == (sum(mul_term(s, f, k), i as nat)
                                + (if i <= k < i + j { mul_term(s, f, k)(i as int) } else { 0 })) % (ORDER as int),
                    decreases s.len() - j,
                {
                    let k: usize = i + j;
                    let product = factor.coefficients[i] * self.coefficients[j];
                    let ghost old_c = coefficients@;
                    let updated = coefficients[k] + product;
                    coefficients[k] = updated;
                    proof {
                        let t = sum(mul_term(s, f, k as int), i as nat);
                        assert(old_c[k as int]@ as int == t % (ORDER as int));
                        assert(mul_term(s, f, k as int)(i as int) == s[j as int] as int * f[i as int] as int);
                        lemma_add_mod_noop(t, s[j as int] as int * f[i as int] as int, ORDER as int);
                        lemma_mod_twice(t, ORDER as int);
                        lemma_mod_twice(s[j as int] as int * f[i as int] as int, ORDER as int);
                        vstd::arithmetic::mul::lemma_mul_is_commutative(s[j as int] as int, f[i as int] as int);
                        assert(product@ as int == (s[j as int] as int * f[i as int] as int) % (ORDER as int));
                        assert(coefficients@[k as int]@ as int == (t + s[j as int] as int * f[i as int] as int) % (ORDER as int));
                        assert forall|k2: int| 0 <= k2 < len implies #[trigger] coefficients@[k2]@ as int == (sum(
                            mul_term(s, f, k2),
                            i as nat,
                        ) + (if i <= k2 < i + j + 1 { mul_term(s, f, k2)(i as int) } else { 0 })) % (
                        ORDER as int) by {
                            if k2 != k {
                                assert(coefficients@[k2] == old_c[k2]);
                            }
                        }
                    }
                    j = j + 1;
                }
                proof {
                    assert(j == s.len());
                    assert forall|k: int| 0 <= k < len implies #[trigger] coefficients@[k]@ as int == sum(
                        mul_term(s, f, k),
                        (i + 1) as nat,
                    ) % (ORDER as int) by {
                        assert(sum(mul_term(s, f, k), (i + 1) as nat) == sum(mul_term(s, f, k), i as nat)
                            + mul_term(s, f, k)(i as int));
                        if !(i <= k < i + s.len()) {
                            assert(coeff(s, k - i) == 0);
                            vstd::arithmetic::mul::lemma_mul_by_zero_is_zero(coeff(f, i as int) as int);
                        }
                    }
                }
                i = i + 1;
            }
            let r = Polynomial::new(coefficients);
            proof {
                let v = values(coefficients@);
                lemma_mul_coeff(s, f, ORDER as nat);
                lemma_trim(v);
                assert forall|k: int| #[trigger] coeff(r@, k) == coeff(poly_mul(s, f, ORDER as nat), k) by {
                    if 0 <= k < len {
                        assert(v[k] == coefficients@[k]@);
                    } else {
                        lemma_mul_coeff_zero(s, f, k);
                        lemma_small_mod(0, ORDER as nat);
                    }
                }
                lemma_trimmed_ext(r@, poly_mul(s, f, ORDER as nat));
            }
            r
        }
    }

    /// Long division of `self` by `dividend` (the divisor): the quotient and the remainder.
    /// When the divisor has the larger degree, the quotient is zero and the remainder is
    /// `self` as it is; otherwise the remainder is shorter than the divisor (or zero), and
    /// `quotient * dividend + remainder` is `self`.
    pub fn long_division_with_remainder(self, dividend: &Self) -> (r: (Self, Self))
        requires
            ORDER > 0,
            degree(dividend@) > degree(self@) || trim(self@).len() == 0 || (dividend@.len() > 0
                && gcd(ORDER as nat, dividend@.last()) == 1),
        ensures
            degree(dividend@) > degree(self@) ==> r.0@ == Seq::<nat>::empty() && r.1@ == self@,
            degree(dividend@) <= degree(self@) ==> is_trimmed(r.1@),
            is_trimmed(r.0@),
            r.1@.len() == 0 || r.1@.len() < dividend@.len(),
            poly_add(poly_mul(r.0@, dividend@, ORDER as nat), r.1@, ORDER as nat) == trim(self@),
            all_below(r.0@, ORDER as nat),
            all_below(r.1@, ORDER as nat),
            trim(self@).len() == 0 ==> r.0@ == Seq::<nat>::empty(),
    {
        proof {
            use_type_invariant(&self);
            lemma_add_zero(self@, ORDER as nat);
        }
        if dividend.degree() > self.degree() {
            let z = Polynomial::zero();
            (z, self)
        } else {
            let ghost s = self@;
            let ghost d = dividend@;
            let ghost dl: int = if d.len() == 0 { 1 } else { d.len() as int };
            let ghost p = ORDER as nat;
            let mut n = self;
            let qlen: usize = if n.coefficients.len() == 0 {
                1
            } else {
                n.coefficients.len()
            };
            let mut q: Vec<FieldElement<ORDER>> = Vec::new();
            while q.len() < qlen
                invariant
                    ORDER > 0,
                    q@.len() <= qlen,
                    forall|j: int| 0 <= j < q@.len() ==> #[trigger] q@[j]@ == 0,
                decreases qlen - q@.len(),
            {
                q.push(FieldElement::new(0));
                proof {
                    lemma_small_mod(0, ORDER as nat);
                }
            }
            proof {
                lemma_trim(s);
                assert(poly_mul(values(q@), d, p) == poly_mul(trim(values(q@)), d, p)) by {
                    lemma_mul_trim_left(values(q@), d, p);
                }
                assert(trim(values(q@)).len() == 0) by {
                    lemma_trim(values(q@));
                    if trim(values(q@)).len() > 0 {
                        assert(values(q@)[trim(values(q@)).len() - 1] == 0);
                    }
                }
                assert(trim(values(q@)) =~= Seq::<nat>::empty());
                assert(poly_mul(Seq::<nat>::empty(), d, p) =~= Seq::<nat>::empty());
                if trim(s).len() == 0 {
                    assert forall|i: int| 0 <= i < s.len() implies #[trigger] s[i] == 0 by {
                        assert(s[i] == 0);
                    }
                }
            }
            while n.coefficients.len() != 0 && n.degree() >= dividend.degree()
                invariant
                    ORDER > 0,
                    p == ORDER as nat,
                    d == dividend@,
                    dl == if d.len() == 0 { 1 } else { d.len() as int },
                    degree(d) <= degree(s),
                    qlen == degree(s) + 1,
                    q@.len() == qlen,
                    n@.len() <= s.len(),
                    all_below(n@, p),
                    is_trimmed(n@) || degree(n@) >= degree(d),
                    forall|j: int| 0 <= j < qlen && j + dl <= n@.len() ==> #[trigger] q@[j]@ == 0,
                    poly_add(poly_mul(values(q@), d, p), n@, p) == trim(s),
                    (d.len() > 0 && gcd(p, d.last()) == 1) || trim(s).len() == 0,
                    trim(s).len() == 0 ==> (forall|i: int| 0 <= i < n@.len() ==> #[trigger] n@[i] == 0),
                    trim(s).len() == 0 ==> (forall|j: int| 0 <= j < qlen ==> #[trigger] q@[j]@ == 0),
                decreases n@.len(),
            {
                proof {
                    use_type_invariant(&n);
                }
                let n_last = n.last_coefficient();
                let d_last = dividend.last_coefficient();
                let new_coefficient = n_last / d_last;
                let k: usize = n.degree() - dividend.degree();
                let ghost old_q = values(q@);
                let ghost old_n = n@;
                proof {
                    assert(k + dl == old_n.len());
                    assert(old_q[k as int] == q@[k as int]@);
                }
                q[k] = new_coefficient;
                let monomial = Polynomial::new_monomial(new_coefficient, k);
                proof {
                    lemma_monomial_coeff(new_coefficient@, k as nat);
                    lemma_trimmed_len_bound(monomial@, k + 1);
                }
                let d_times = dividend.mul_with_ref(&monomial);
                n = n - d_times;
                proof {
                    let c = new_coefficient@;
                    assert(values(q@) =~= old_q.update(k as int, c));
                    lemma_division_step(old_q, d, old_n, c, k as int, p);
                    if trim(s).len() == 0 {
                        assert(n_last@ == old_n[old_n.len() - 1]);
                        assert(c == 0);
                        lemma_small_mod(0, p);
                        vstd::arithmetic::mul::lemma_mul_by_zero_is_zero(coeff(d, d.len() - 1) as int);
                        lemma_division_zero(old_n, d, k as nat, p);
                        assert forall|j: int| 0 <= j < qlen implies #[trigger] q@[j]@ == 0 by {
                            assert(values(q@)[j] == old_q.update(k as int, c)[j]);
                        }
                    } else {
                        assert(d_last@ == d.last());
                        if n_last@ == 0 {
                            assert(c == 0);
                            lemma_small_mod(0, p);
                            vstd::arithmetic::mul::lemma_mul_by_zero_is_zero(coeff(d, d.len() - 1) as int);
                        } else {
                            assert(d_last@ != 0);
                            lemma_small_mod(n_last@, p);
                            vstd::arithmetic::mul::lemma_mul_is_commutative(c as int, d.last() as int);
                        }
                    }
                    lemma_division_shrinks(old_n, d, c, k as nat, p);
                    lemma_add_coeff(old_n, poly_neg(d_times@, p), p);
                    assert forall|j: int| 0 <= j < qlen && j + dl <= n@.len() implies #[trigger] q@[j]@ == 0 by {
                        assert(values(q@)[j] == old_q[j]);
                    }
                }
            }
            let quotient = Polynomial::new(q);
            proof {
                lemma_mul_trim_left(values(q@), d, p);
                lemma_trim(values(q@));
                if trim(s).len() == 0 && quotient@.len() > 0 {
                    assert(values(q@)[quotient@.len() - 1] == 0);
                }
            }
            proof {
                use_type_invariant(&quotient);
                use_type_invariant(&n);
            }
            (quotient, n)
        }
    }

    /// The quotient of the long division of `self` by `dividend`.
    pub fn div_with_ref(self, dividend: &Self) -> (r: Self)
        requires
            ORDER > 0,
            degree(dividend@) > degree(self@) || trim(self@).len() == 0 || (dividend@.len() > 0
                && gcd(ORDER as nat, dividend@.last()) == 1),
        ensures
            degree(dividend@) > degree(self@) ==> r@ == Seq::<nat>::empty(),
            is_trimmed(r@),
            trim(self@).len() == 0 ==> r@ == Seq::<nat>::empty(),
            exists|rem: Seq<nat>|
                is_trimmed(rem) && all_below(rem, ORDER as nat) && (rem.len() == 0 || rem.len()
                    < dividend@.len()) && #[trigger] poly_add(
                    poly_mul(r@, dividend@, ORDER as nat),
                    rem,
                    ORDER as nat,
                ) == trim(self@),
    {
        let ghost s = self@;
        let (quotient, remainder) = self.long_division_with_remainder(dividend);
        proof {
            if degree(dividend@) > degree(s) {
                assert(poly_mul(Seq::<nat>::empty(), dividend@, ORDER as nat) =~= Seq::<nat>::empty());
                lemma_add_zero(s, ORDER as nat);
                lemma_trim(s);
                lemma_add_coeff(Seq::<nat>::empty(), trim(s), ORDER as nat);
                crate::math::algebra::lemma_trim_below(s, ORDER as nat);
                lemma_add_zero(trim(s), ORDER as nat);
                assert(poly_add(poly_mul(quotient@, dividend@, ORDER as nat), trim(s), ORDER as nat) == trim(s));
                if s.len() > 0 {
                    assert(trim(s).len() <= s.len());
                }
            } else {
                assert(remainder@.len() == 0 || remainder@.len() < dividend@.len());
                assert(is_trimmed(remainder@));
            }
        }
        quotient
    }

    /// The Lagrange interpolation polynomial through the points `(xs[i], ys[i])`:
    /// the sum over `i` of `ys[i]` times the product over `j != i` of
    /// `(x - xs[j]) / (xs[i] - xs[j])`.
    pub fn interpolate(xs: &[FieldElement<ORDER>], ys: &[FieldElement<ORDER>]) -> (r: Polynomial<ORDER>)
        requires
            ys@.len() <= xs@.len() || xs@.len() == 0,
        ensures
            r@ == lagrange(values(xs@), values(ys@), ys@.len() as nat, ORDER as nat),
    {
        let ghost px = values(xs@);
        let ghost py = values(ys@);
        let ghost p = ORDER as nat;
        let mut result = Polynomial::zero();
        let mut i: usize = 0;
        while i < ys.len()
            invariant
                px == values(xs@),
                py == values(ys@),
                p == ORDER as nat,
                ys@.len() <= xs@.len() || xs@.len() == 0,
                i <= ys@.len(),
                result@ == lagrange(px, py, i as nat, p),
            decreases ys@.len() - i,
        {
            let y = ys[i];
            let single = vec![y];
            let mut y_term = Polynomial::new(single);
            proof {
                assert(values(single@) =~= seq![py[i as int]]);
                lemma_trim(values(single@));
            }
            let mut j: usize = 0;
            while j < xs.len()
                invariant
                    px == values(xs@),
                    py == values(ys@),
                    p == ORDER as nat,
                    ys@.len() <= xs@.len() || xs@.len() == 0,
                    i < ys@.len(),
                    j <= xs@.len(),
                    y_term@ == lagrange_term(px, py, i as int, j as nat, p),
                    y_term@.len() <= j + 1,
                decreases xs@.len() - j,
            {
                if i != j {
                    let x = xs[j];
                    let difference = xs[i] - x;
                    let one = FieldElement::new(1);
                    let quotient = one / difference;
                    let denominator_coefficients = vec![quotient];
                    let denominator = Polynomial::new(denominator_coefficients);
                    let numerator_coefficients = vec![x.neg_element(), FieldElement::new(1)];
                    let numerator = Polynomial::new(numerator_coefficients);
                    proof {
                        assert(values(denominator_coefficients@) =~= seq![quotient@]);
                        lemma_trim(values(denominator_coefficients@));
                        lemma_trim(values(numerator_coefficients@));
                        assert(values(numerator_coefficients@) =~= seq![
                            ((-(px[j as int] as int)) % (p as int)) as nat,
                            1nat % p,
                        ]);
                    }
                    let factor = numerator * denominator;
                    proof {
                        assert(factor@ == lagrange_factor(px, i as int, j as int, p));
                        lemma_mul_len(numerator@, denominator@, p);
                    }
                    y_term = y_term.mul_with_ref(&factor);
                    proof {
                        lemma_mul_len(lagrange_term(px, py, i as int, j as nat, p), factor@, p);
                    }
                }
                j = j + 1;
            }
            result = result + y_term;
            i = i + 1;
        }
        result
    }
}

impl<const ORDER: u128> Clone for Polynomial<ORDER> {
    /// A copy with the same coefficients.
    fn clone(&self) -> (r: Self)
        ensures
            r@ == self@,
    {
        proof {
            use_type_invariant(self);
        }
        let mut coefficients: Vec<FieldElement<ORDER>> = Vec::new();
        let mut i: usize = 0;
        while i < self.coefficients.len()
            invariant
                i <= self.coefficients.len(),
                coefficients@ == self.coefficients@.take(i as int),
            decreases self.coefficients.len() - i,
        {
            coefficients.push(self.coefficients[i]);
            i = i + 1;
            assert(coefficients@ =~= self.coefficients@.take(i as int));
        }
        assert(coefficients@ =~= self.coefficients@);
        Self::from_vec(coefficients)
    }
}

impl<const ORDER: u128> std::ops::Add<&Polynomial<ORDER>> for &Polynomial<ORDER> {
    type Output = Polynomial<ORDER>;

    /// The sum, coefficient by coefficient, modulo `ORDER`.
    fn add(self, a_polynomial: &Polynomial<ORDER>) -> (r: Polynomial<ORDER>)
        ensures
            r@ == poly_add(self@, a_polynomial@, ORDER as nat),
    {
        self.add_polynomial(a_polynomial)
    }
}

impl<const ORDER: u128> vstd::std_specs::ops::AddSpecImpl<&Polynomial<ORDER>> for &Polynomial<ORDER> {
    /// The contract of `add` above states the result.
    open spec fn obeys_add_spec() -> bool {
        false
    }

    open spec fn add_req(self, rhs: &Polynomial<ORDER>) -> bool {
        true
    }

    open spec fn add_spec(self, rhs: &Polynomial<ORDER>) -> Polynomial<ORDER> {
        arbitrary()
    }
}

impl<const ORDER: u128> std::ops::Add<Polynomial<ORDER>> for Polynomial<ORDER> {
    type Output = Polynomial<ORDER>;

    /// The sum, coefficient by coefficient, modulo `ORDER`.
    fn add(self, a_polynomial: Polynomial<ORDER>) -> (r: Polynomial<ORDER>)
        ensures
            r@ == poly_add(self@, a_polynomial@, ORDER as nat),
    {
        self.add_polynomial(&a_polynomial)
    }
}

impl<const ORDER: u128> vstd::std_specs::ops::AddSpecImpl<Polynomial<ORDER>> for Polynomial<ORDER> {
    /// The contract of `add` above states the result.
    open spec fn obeys_add_spec() -> bool {
        false
    }

    open spec fn add_req(self, rhs: Polynomial<ORDER>) -> bool {
        true
    }

    open spec fn add_spec(self, rhs: Polynomial<ORDER>) -> Polynomial<ORDER> {
        arbitrary()
    }
}

impl<const ORDER: u128> std::ops::Add<&Polynomial<ORDER>> for Polynomial<ORDER> {
    type Output = Polynomial<ORDER>;

    /// The sum, coefficient by coefficient, modulo `ORDER`.
    fn add(self, a_polynomial: &Polynomial<ORDER>) -> (r: Polynomial<ORDER>)
        ensures
            r@ == poly_add(self@, a_polynomial@, ORDER as nat),
    {
        self.add_polynomial(a_polynomial)
    }
}

impl<const ORDER: u128> vstd::std_specs::ops::AddSpecImpl<&Polynomial<ORDER>> for Polynomial<ORDER> {
    /// The contract of `add` above states the result.
    open spec fn obeys_add_spec() -> bool {
        false
    }

    open spec fn add_req(self, rhs: &Polynomial<ORDER>) -> bool {
        true
    }

    open spec fn add_spec(self, rhs: &Polynomial<ORDER>) -> Polynomial<ORDER> {
        arbitrary()
    }
}

impl<const ORDER: u128> std::ops::Add<Polynomial<ORDER>> for &Polynomial<ORDER> {
    type Output = Polynomial<ORDER>;

    /// The sum, coefficient by coefficient, modulo `ORDER`.
    fn add(self, a_polynomial: Polynomial<ORDER>) -> (r: Polynomial<ORDER>)
        ensures
            r@ == poly_add(self@, a_polynomial@, ORDER as nat),
    {
        self.add_polynomial(&a_polynomial)
    }
}

impl<const ORDER: u128> vstd::std_specs::ops::AddSpecImpl<Polynomial<ORDER>> for &Polynomial<ORDER> {
    /// The contract of `add` above states the result.
    open spec fn obeys_add_spec() -> bool {
        false
    }

    open spec fn add_req(self, rhs: Polynomial<ORDER>) -> bool {
        true
    }

    open spec fn add_spec(self, rhs: Polynomial<ORDER>) -> Polynomial<ORDER> {
        arbitrary()
    }
}

impl<const ORDER: u128> std::ops::Neg for Polynomial<ORDER> {
    type Output = Polynomial<ORDER>;

    /// The negation, coefficient by coefficient, modulo `ORDER`.
    fn neg(self) -> (r: Polynomial<ORDER>)
        ensures
            r@ == poly_neg(self@, ORDER as nat),
    {
        self.neg_polynomial()
    }
}

impl<const ORDER: u128> vstd::std_specs::ops::NegSpecImpl for Polynomial<ORDER> {
    /// The contract of `neg` above states the result.
    open spec fn obeys_neg_spec() -> bool {
        false
    }

    open spec fn neg_req(self) -> bool {
        true
    }

    open spec fn neg_spec(self) -> Polynomial<ORDER> {
        arbitrary()
    }
}

impl<const ORDER: u128> std::ops::Sub<Polynomial<ORDER>> for Polynomial<ORDER> {
    type Output = Polynomial<ORDER>;

    /// `self + (-substrahend)`.
    fn sub(self, substrahend: Polynomial<ORDER>) -> (r: Polynomial<ORDER>)
        ensures
            r@ == poly_sub(self@, substrahend@, ORDER as nat),
    {
        self.add_polynomial(&substrahend.neg_polynomial())
    }
}

impl<const ORDER: u128> vstd::std_specs::ops::SubSpecImpl<Polynomial<ORDER>> for Polynomial<ORDER> {
    /// The contract of `sub` above states the result.
    open spec fn obeys_sub_spec() -> bool {
        false
    }

    open spec fn sub_req(self, rhs: Polynomial<ORDER>) -> bool {
        true
    }

    open spec fn sub_spec(self, rhs: Polynomial<ORDER>) -> Polynomial<ORDER> {
        arbitrary()
    }
}

impl<const ORDER: u128> std::ops::Div<Polynomial<ORDER>> for Polynomial<ORDER> {
    type Output = Polynomial<ORDER>;

    /// The quotient of the long division (see `div_with_ref`).
    fn div(self, dividend: Polynomial<ORDER>) -> (r: Polynomial<ORDER>)
        ensures
            degree(dividend@) > degree(self@) ==> r@ == Seq::<nat>::empty(),
            is_trimmed(r@),
            trim(self@).len() == 0 ==> r@ == Seq::<nat>::empty(),
            exists|rem: Seq<nat>|
                is_trimmed(rem) && all_below(rem, ORDER as nat) && (rem.len() == 0 || rem.len()
                    < dividend@.len()) && #[trigger] poly_add(
                    poly_mul(r@, dividend@, ORDER as nat),
                    rem,
                    ORDER as nat,
                ) == trim(self@),
    {
        self.div_with_ref(&dividend)
    }
}

impl<const ORDER: u128> vstd::std_specs::ops::DivSpecImpl<Polynomial<ORDER>> for Polynomial<ORDER> {
    /// The contract of `div` above states the result.
    open spec fn obeys_div_spec() -> bool {
        false
    }

    open spec fn div_req(self, rhs: Polynomial<ORDER>) -> bool {
        ORDER > 0 && (degree(rhs@) > degree(self@) || trim(self@).len() == 0
            || (rhs@.len() > 0 && gcd(ORDER as nat, rhs@.last()) == 1))
    }

    open spec fn div_spec(self, rhs: Polynomial<ORDER>) -> Polynomial<ORDER> {
        arbitrary()
    }
}

impl<const ORDER: u128> std::ops::Mul<Polynomial<ORDER>> for Polynomial<ORDER> {
    type Output = Polynomial<ORDER>;

    /// The product (see `mul_with_ref`).
    fn mul(self, dividend: Polynomial<ORDER>) -> (r: Polynomial<ORDER>)
        ensures
            r@ == poly_mul(self@, dividend@, ORDER as nat),
    {
        self.mul_with_ref(&dividend)
    }
}

impl<const ORDER: u128> vstd::std_specs::ops::MulSpecImpl<Polynomial<ORDER>> for Polynomial<ORDER> {
    /// The contract of `mul` above states the result.
    open spec fn obeys_mul_spec() -> bool {
        false
    }

    open spec fn mul_req(self, rhs: Polynomial<ORDER>) -> bool {
        ORDER > 0
    }

    open spec fn mul_spec(self, rhs: Polynomial<ORDER>) -> Polynomial<ORDER> {
        arbitrary()
    }
}

} // verus!
