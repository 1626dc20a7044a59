use finite_poly::math::field_element::FieldElement;
use finite_poly::math::polynomial::Polynomial;

const ORDER: u128 = 23;
type FE = FieldElement<ORDER>;
type Poly = Polynomial<ORDER>;

fn poly(values: &[u128]) -> Poly {
    Poly::new(values.iter().map(|v| FE::new(*v)).collect())
}

fn values(p: &Poly) -> Vec<u128> {
    p.coefficients().iter().map(|c| c.value()).collect()
}

#[test]
fn zero_polynomial_has_no_coefficients() {
    let z = Poly::zero();
    assert!(z.coefficients().is_empty());
    assert_eq!(z.degree(), 0);
    assert_eq!(z.last_coefficient(), FE::zero());
    assert_eq!(z.evaluate(FE::new(7)), FE::zero());
}

#[test]
fn new_of_only_zeros_is_zero() {
    assert_eq!(poly(&[0, 0, 0]), Poly::zero());
    assert_eq!(poly(&[23, 46]), Poly::zero());
}

#[test]
fn degree_and_last_coefficient() {
    let p = poly(&[1, 2, 3]);
    assert_eq!(p.degree(), 2);
    assert_eq!(p.last_coefficient(), FE::new(3));
}

#[test]
fn monomial_coefficients() {
    assert_eq!(values(&Poly::new_monomial(FE::new(5), 3)), vec![0, 0, 0, 5]);
    assert_eq!(Poly::new_monomial(FE::new(0), 3), Poly::zero());
}

#[test]
fn evaluate_monomial_is_coefficient_times_power() {
    let x = FE::new(3);
    let p = Poly::new_monomial(FE::new(5), 4);
    assert_eq!(p.evaluate(x), FE::new(5) * x.pow(4));
    assert_eq!(p.evaluate(x), FE::new((5 * 81) % 23));
}

#[test]
fn evaluate_sums_the_terms() {
    // 1 + 2x + 3x^2 at x = 5: 1 + 10 + 75 = 86 = 17 modulo 23
    assert_eq!(poly(&[1, 2, 3]).evaluate(FE::new(5)), FE::new(17));
}

#[test]
fn addition_is_commutative() {
    let a = poly(&[1, 2, 3, 4]);
    let b = poly(&[5, 21]);
    assert_eq!(&a + &b, &b + &a);
    assert_eq!(values(&(&a + &b)), vec![6, 0, 3, 4]);
}

#[test]
fn addition_cancelling_the_top_coefficients_trims() {
    let a = poly(&[1, 2, 3]);
    let b = poly(&[1, 2, 20]);
    assert_eq!(values(&(a + b)), vec![2, 4]);
}

#[test]
fn addition_of_references_and_values() {
    let a = poly(&[1, 2]);
    let b = poly(&[3]);
    assert_eq!(a.clone() + &b, poly(&[4, 2]));
    assert_eq!(&a + b.clone(), poly(&[4, 2]));
}

#[test]
fn subtracting_a_polynomial_from_itself_is_zero() {
    let a = poly(&[7, 0, 9, 1]);
    assert_eq!(a.clone() - a, Poly::zero());
}

#[test]
fn negation_twice_is_identity() {
    let a = poly(&[0, 5, 22]);
    assert_eq!(-(-a.clone()), a);
    assert_eq!(values(&(-a)), vec![0, 18, 1]);
}

#[test]
fn multiplication_is_commutative() {
    let a = poly(&[1, 2, 3]);
    let b = poly(&[4, 0, 5, 6]);
    assert_eq!(a.mul_with_ref(&b), b.mul_with_ref(&a));
}

#[test]
fn multiplication_by_zero_polynomial_is_zero() {
    let a = poly(&[1, 2, 3]);
    assert_eq!(a.mul_with_ref(&Poly::zero()), Poly::zero());
    assert_eq!(Poly::zero().mul_with_ref(&a), Poly::zero());
}

#[test]
fn product_evaluates_to_product_of_values() {
    let a = poly(&[3, 1, 4]);
    let b = poly(&[1, 5, 9, 2]);
    let x = FE::new(6);
    assert_eq!(a.mul_with_ref(&b).evaluate(x), a.evaluate(x) * b.evaluate(x));
}

#[test]
fn long_division_quotient_and_remainder() {
    // x^2 + 1 = (x - 1)(x + 1) + 2
    let n = poly(&[1, 0, 1]);
    let d = poly(&[1, 1]);
    let (q, r) = n.clone().long_division_with_remainder(&d);
    assert_eq!(values(&q), vec![22, 1]);
    assert_eq!(values(&r), vec![2]);
    assert_eq!(q.mul_with_ref(&d) + r, n);
}

#[test]
fn long_division_by_larger_degree_returns_zero_and_self() {
    let n = poly(&[1, 2]);
    let d = poly(&[1, 2, 3]);
    let (q, r) = n.clone().long_division_with_remainder(&d);
    assert_eq!(q, Poly::zero());
    assert_eq!(r, n);
}

#[test]
fn division_of_a_product_gives_back_the_factor() {
    let a = poly(&[2, 7, 0, 5]);
    let b = poly(&[3, 1, 22]);
    let product = a.mul_with_ref(&b);
    let (q, r) = product.long_division_with_remainder(&b);
    assert_eq!(q, a);
    assert_eq!(r, Poly::zero());
    assert_eq!(a.mul_with_ref(&b).div_with_ref(&b), a);
}

#[test]
fn division_of_zero_by_zero_is_zero() {
    let (q, r) = Poly::zero().long_division_with_remainder(&Poly::zero());
    assert_eq!(q, Poly::zero());
    assert_eq!(r, Poly::zero());
}

#[test]
fn division_of_a_padded_polynomial() {
    let p1 = poly(&[3, 4]);
    let p2 = poly(&[3]);
    let (_, padded) = Poly::pad_with_zero_coefficients(&p1, &p2);
    assert_eq!(values(&padded), vec![3, 0]);
    let (q, r) = padded.long_division_with_remainder(&poly(&[1, 1]));
    assert_eq!(q, Poly::zero());
    assert_eq!(values(&r), vec![3]);
}

#[test]
fn padding_keeps_the_polynomial() {
    let p1 = poly(&[1, 2, 3]);
    let p2 = poly(&[9]);
    let (a, b) = Poly::pad_with_zero_coefficients(&p1, &p2);
    assert_eq!(values(&a), vec![1, 2, 3]);
    assert_eq!(values(&b), vec![9, 0, 0]);
    assert_eq!(Poly::new(b.coefficients().to_vec()), p2);
    let (c, d) = Poly::pad_with_zero_coefficients(&Poly::zero(), &Poly::zero());
    assert_eq!(c, Poly::zero());
    assert_eq!(d, Poly::zero());
}

#[test]
fn interpolation_passes_through_all_points() {
    let xs: Vec<FE> = [1u128, 4, 9, 16, 22].iter().map(|v| FE::new(*v)).collect();
    let ys: Vec<FE> = [3u128, 0, 17, 8, 11].iter().map(|v| FE::new(*v)).collect();
    let p = Poly::interpolate(&xs, &ys);
    for k in 0..xs.len() {
        assert_eq!(p.evaluate(xs[k]), ys[k]);
    }
    assert!(p.degree() <= 4);
}

#[test]
fn interpolation_with_fewer_values_than_points() {
    let xs: Vec<FE> = [2u128, 5, 7].iter().map(|v| FE::new(*v)).collect();
    let ys: Vec<FE> = [10u128, 19].iter().map(|v| FE::new(*v)).collect();
    let p = Poly::interpolate(&xs, &ys);
    assert_eq!(p.evaluate(xs[0]), ys[0]);
    assert_eq!(p.evaluate(xs[1]), ys[1]);
    assert_eq!(p.evaluate(xs[2]), FE::zero());
}

#[test]
fn interpolation_of_nothing_is_zero() {
    let p = Poly::interpolate(&[], &[]);
    assert_eq!(p, Poly::zero());
}

#[test]
fn clone_is_equal() {
    let a = poly(&[4, 4, 4]);
    assert_eq!(a.clone(), a);
}

#[test]
fn sum_evaluates_to_sum_of_values() {
    let a = poly(&[3, 1, 4]);
    let b = poly(&[1, 5, 9, 2]);
    let x = FE::new(13);
    assert_eq!((&a + &b).evaluate(x), a.evaluate(x) + b.evaluate(x));
}

#[test]
fn addition_is_associative() {
    let a = poly(&[1, 22, 5]);
    let b = poly(&[4, 1, 18, 9]);
    let c = poly(&[0, 0, 0, 14]);
    let left = &(&a + &b) + &c;
    let right = &a + &(&b + &c);
    assert_eq!(left, right);
    assert_eq!(values(&left), vec![5]);
}

#[test]
fn adding_zero_gives_the_polynomial() {
    let a = poly(&[3, 0, 7]);
    assert_eq!(&a + &Poly::zero(), a);
    assert_eq!(&Poly::zero() + &a, a);
}

#[test]
fn difference_plus_subtrahend_gives_back_the_polynomial() {
    let a = poly(&[2, 5, 1]);
    let b = poly(&[7, 3, 1, 20]);
    let d = a.clone() - b.clone();
    assert_eq!(values(&d), vec![18, 2, 0, 3]);
    assert_eq!(d + b, a);
}

#[test]
fn difference_evaluates_to_difference_of_values() {
    let a = poly(&[2, 5, 1]);
    let b = poly(&[7, 3, 1, 20]);
    let x = FE::new(6);
    assert_eq!((a.clone() - b.clone()).evaluate(x), a.evaluate(x) - b.evaluate(x));
}

#[test]
fn negation_evaluates_to_negated_value() {
    let a = poly(&[2, 5, 1]);
    let x = FE::new(11);
    assert_eq!((-a.clone()).evaluate(x), -a.evaluate(x));
}

#[test]
fn multiplication_is_associative() {
    let a = poly(&[1, 2]);
    let b = poly(&[3, 0, 4]);
    let c = poly(&[22, 5]);
    let left = a.mul_with_ref(&b).mul_with_ref(&c);
    let right = a.mul_with_ref(&b.mul_with_ref(&c));
    assert_eq!(left, right);
    // (1 + 2x)(3 + 4x^2) = 3 + 6x + 4x^2 + 8x^3; times (22 + 5x)
    assert_eq!(values(&left), vec![20, 9, 3, 12, 17]);
}

#[test]
fn multiplication_distributes_over_addition() {
    let a = poly(&[1, 2]);
    let b = poly(&[3, 0, 4]);
    let c = poly(&[20, 1]);
    let left = a.mul_with_ref(&(&b + &c));
    let right = &a.mul_with_ref(&b) + &a.mul_with_ref(&c);
    assert_eq!(left, right);
}

#[test]
fn multiplying_by_one_gives_the_polynomial() {
    let a = poly(&[4, 0, 9, 13]);
    let one = poly(&[1]);
    assert_eq!(a.mul_with_ref(&one), a);
    assert_eq!(one.mul_with_ref(&a), a);
}

#[test]
fn every_result_has_no_trailing_zero() {
    let a = poly(&[1, 2, 3]);
    let b = poly(&[5, 21, 20]);
    let results = vec![
        &a + &b,
        a.clone() - a.clone(),
        -poly(&[0, 0]),
        a.mul_with_ref(&Poly::zero()),
        Poly::new_monomial(FE::new(0), 4),
        Poly::interpolate(&[FE::new(1), FE::new(2)], &[FE::new(3), FE::new(3)]),
    ];
    for r in results.iter() {
        let c = r.coefficients();
        assert!(c.is_empty() || c[c.len() - 1] != FE::zero());
    }
}

#[test]
fn product_degree_is_sum_of_degrees() {
    let a = poly(&[1, 2]);
    let b = poly(&[3, 0, 4]);
    let product = a.mul_with_ref(&b);
    assert_eq!(product.degree(), a.degree() + b.degree());
    assert_eq!(product.last_coefficient(), a.last_coefficient() * b.last_coefficient());
    assert_eq!(product.last_coefficient(), FE::new(8));
}

#[test]
fn nonzero_residues_have_nonzero_product() {
    for x in 1..23u128 {
        for y in 1..23u128 {
            assert_ne!(FE::new(x) * FE::new(y), FE::zero());
        }
    }
}

#[test]
fn quotient_degree_is_difference_of_degrees() {
    // (5x^4 + 3x + 1) divided by (2x^2 + 1)
    let n = poly(&[1, 3, 0, 0, 5]);
    let d = poly(&[1, 0, 2]);
    let (q, r) = n.clone().long_division_with_remainder(&d);
    assert_eq!(q.degree(), n.degree() - d.degree());
    assert_eq!(q.last_coefficient() * d.last_coefficient(), n.last_coefficient());
    assert!(r.coefficients().len() < d.coefficients().len());
}

#[test]
fn interpolant_has_at_most_as_many_coefficients_as_points() {
    let xs: Vec<FE> = [1u128, 2, 3].iter().map(|v| FE::new(*v)).collect();
    let ys: Vec<FE> = [1u128, 4, 9].iter().map(|v| FE::new(*v)).collect();
    let p = Poly::interpolate(&xs, &ys);
    assert!(p.coefficients().len() <= xs.len());
    // the points lie on x^2
    assert_eq!(values(&p), vec![0, 0, 1]);
}
