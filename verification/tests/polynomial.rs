use finite_poly::math::field_element::FieldElement;
use finite_poly::math::polynomial::Polynomial;

const ORDER: u128 = 23;
type FE = FieldElement<ORDER>;

fn polynomial_a() -> Polynomial<ORDER> {
    Polynomial::new(vec![FE::new(1), FE::new(2), FE::new(3)])
}

fn polynomial_minus_a() -> Polynomial<ORDER> {
    Polynomial::new(vec![
        FE::new(ORDER - 1),
        FE::new(ORDER - 2),
        FE::new(ORDER - 3),
    ])
}

fn polynomial_b() -> Polynomial<ORDER> {
    Polynomial::new(vec![FE::new(3), FE::new(4), FE::new(5)])
}

fn polynomial_a_plus_b() -> Polynomial<ORDER> {
    Polynomial::new(vec![FE::new(4), FE::new(6), FE::new(8)])
}

fn polynomial_b_minus_a() -> Polynomial<ORDER> {
    Polynomial::new(vec![FE::new(2), FE::new(2), FE::new(2)])
}

#[test]
fn adding_a_and_b_equals_a_plus_b() {
    assert_eq!(polynomial_a() + polynomial_b(), polynomial_a_plus_b());
}

#[test]
fn adding_a_and_a_plus_b_does_not_equal_b() {
    assert_ne!(polynomial_a() + polynomial_a_plus_b(), polynomial_b());
}

#[test]
fn add_5_to_0_is_5() {
    let p1 = Polynomial::new(vec![FE::new(5)]);
    let p2 = Polynomial::new(vec![FE::new(0)]);
    assert_eq!(p1 + p2, Polynomial::new(vec![FE::new(5)]));
}

#[test]
fn add_0_to_5_is_5() {
    let p1 = Polynomial::new(vec![FE::new(5)]);
    let p2 = Polynomial::new(vec![FE::new(0)]);
    assert_eq!(p2 + p1, Polynomial::new(vec![FE::new(5)]));
}

#[test]
fn negating_0_returns_0() {
    let p1 = Polynomial::new(vec![FE::new(0)]);
    assert_eq!(-p1, Polynomial::new(vec![FE::new(0)]));
}

#[test]
fn negating_a_is_equal_to_minus_a() {
    assert_eq!(-polynomial_a(), polynomial_minus_a());
}

#[test]
fn negating_a_is_not_equal_to_a() {
    assert_ne!(-polynomial_a(), polynomial_a());
}

#[test]
fn substracting_5_5_gives_0() {
    let p1 = Polynomial::new(vec![FE::new(5)]);
    let p2 = Polynomial::new(vec![FE::new(5)]);
    let p3 = Polynomial::new(vec![FE::new(0)]);
    assert_eq!(p1 - p2, p3);
}

#[test]
fn substracting_b_and_a_equals_b_minus_a() {
    assert_eq!(polynomial_b() - polynomial_a(), polynomial_b_minus_a());
}

#[test]
fn constructor_removes_zeros_at_the_end_of_polynomial() {
    let p1 = Polynomial::new(vec![FE::new(3), FE::new(4), FE::new(0)]);
    assert_eq!(p1.coefficients().to_vec(), vec![FE::new(3), FE::new(4)]);
}

#[test]
fn pad_with_zero_coefficients_returns_polynomials_with_zeros_until_matching_size() {
    let p1 = Polynomial::new(vec![FE::new(3), FE::new(4)]);
    let p2 = Polynomial::new(vec![FE::new(3)]);

    assert_eq!(p2.coefficients().to_vec(), vec![FE::new(3)]);
    let (pp1, pp2) = Polynomial::pad_with_zero_coefficients(&p1, &p2);
    assert_eq!(pp1, p1);
    assert_eq!(pp2.coefficients().to_vec(), vec![FE::new(3), FE::new(0)]);
}

#[test]
fn multiply_5_and_0_is_0() {
    let p1 = Polynomial::new(vec![FE::new(5)]);
    let p2 = Polynomial::new(vec![FE::new(0)]);
    assert_eq!(p1 * p2, Polynomial::new(vec![FE::new(0)]));
}

#[test]
fn multiply_0_and_x_is_0() {
    let p1 = Polynomial::new(vec![FE::new(0)]);
    let p2 = Polynomial::new(vec![FE::new(0), FE::new(1)]);
    assert_eq!(p1 * p2, Polynomial::new(vec![FE::new(0)]));
}

#[test]
fn multiply_2_by_3_is_6() {
    let p1 = Polynomial::new(vec![FE::new(2)]);
    let p2 = Polynomial::new(vec![FE::new(3)]);
    assert_eq!(p1 * p2, Polynomial::new(vec![FE::new(6)]));
}

#[test]
fn multiply_2xx_3x_3_times_x_4() {
    let p1 = Polynomial::new(vec![FE::new(3), FE::new(3), FE::new(2)]);
    let p2 = Polynomial::new(vec![FE::new(4), FE::new(1)]);
    assert_eq!(
        p1 * p2,
        Polynomial::new(vec![FE::new(12), FE::new(15), FE::new(11), FE::new(2)])
    );
}

#[test]
fn multiply_x_4_times_2xx_3x_3() {
    let p1 = Polynomial::new(vec![FE::new(3), FE::new(3), FE::new(2)]);
    let p2 = Polynomial::new(vec![FE::new(4), FE::new(1)]);
    assert_eq!(
        p2 * p1,
        Polynomial::new(vec![FE::new(12), FE::new(15), FE::new(11), FE::new(2)])
    );
}

#[test]
fn division_works() {
    let p1 = Polynomial::new(vec![FE::new(1), FE::new(3)]);
    let p2 = Polynomial::new(vec![FE::new(1), FE::new(3)]);
    let p3 = p1.mul_with_ref(&p2);
    assert_eq!(p3 / p2, p1);
}

#[test]
fn division_by_zero_degree_polynomial_works() {
    let four = FE::new(4);
    let two = FE::new(2);
    let p1 = Polynomial::new(vec![four, four]);
    let p2 = Polynomial::new(vec![two]);
    assert_eq!(Polynomial::new(vec![two, two]), p1 / p2);
}

#[test]
fn evaluate_constant_polynomial_returns_constant() {
    let three = FE::new(3);
    let p = Polynomial::new(vec![three]);
    assert_eq!(p.evaluate(FE::new(10)), three);
}

#[test]
fn create_degree_0_new_monomial() {
    assert_eq!(
        Polynomial::new_monomial(FE::new(3), 0),
        Polynomial::new(vec![FE::new(3)])
    );
}

#[test]
fn zero_poly_evals_0_in_3() {
    assert_eq!(
        Polynomial::new_monomial(FE::new(0), 0).evaluate(FE::new(3)),
        FE::new(0)
    );
}

#[test]
fn evaluate_degree_1_new_monomial() {
    let two = FE::new(2);
    let four = FE::new(4);
    let p = Polynomial::new_monomial(two, 1);
    assert_eq!(p.evaluate(two), four);
}

#[test]
fn evaluate_degree_2_monomyal() {
    let two = FE::new(2);
    let eight = FE::new(8);
    let p = Polynomial::new_monomial(two, 2);
    assert_eq!(p.evaluate(two), eight);
}

#[test]
fn evaluate_3_term_polynomial() {
    let p = Polynomial::new(vec![FE::new(3), -FE::new(2), FE::new(4)]);
    assert_eq!(p.evaluate(FE::new(2)), FE::new(15));
}

#[test]
fn simple_interpolating_polynomial_by_hand_works() {
    let denominator = Polynomial::new(vec![FE::new(1) / (FE::new(2) - FE::new(4))]);
    let numerator = Polynomial::new(vec![-FE::new(4), FE::new(1)]);
    let interpolating = numerator * denominator;
    assert_eq!(
        (FE::new(2) - FE::new(4)) * (FE::new(1) / (FE::new(2) - FE::new(4))),
        FE::new(1)
    );
    assert_eq!(interpolating.evaluate(FE::new(2)), FE::new(1));
    assert_eq!(interpolating.evaluate(FE::new(4)), FE::new(0));
}

#[test]
fn interpolate_x_2_y_3() {
    let p = Polynomial::interpolate(&[FE::new(2)], &[FE::new(3)]);
    assert_eq!(FE::new(3), p.evaluate(FE::new(2)));
}

#[test]
fn interpolate_x_0_2_y_3_4() {
    let p = Polynomial::interpolate(&[FE::new(0), FE::new(2)], &[FE::new(3), FE::new(4)]);
    assert_eq!(FE::new(3), p.evaluate(FE::new(0)));
    assert_eq!(FE::new(4), p.evaluate(FE::new(2)));
}

#[test]
fn interpolate_x_2_5_7_y_10_19_43() {
    let p = Polynomial::interpolate(
        &[FE::new(2), FE::new(5), FE::new(7)],
        &[FE::new(10), FE::new(19), FE::new(43)],
    );

    assert_eq!(FE::new(10), p.evaluate(FE::new(2)));
    assert_eq!(FE::new(19), p.evaluate(FE::new(5)));
    assert_eq!(FE::new(43), p.evaluate(FE::new(7)));
}

#[test]
fn interpolate_x_0_0_y_1_1() {
    let p = Polynomial::interpolate(&[FE::new(0), FE::new(1)], &[FE::new(0), FE::new(1)]);

    assert_eq!(FE::new(0), p.evaluate(FE::new(0)));
    assert_eq!(FE::new(1), p.evaluate(FE::new(1)));
}

#[test]
fn interpolate_x_0_y_0() {
    let p = Polynomial::interpolate(&[FE::new(0)], &[FE::new(0)]);
    assert_eq!(FE::new(0), p.evaluate(FE::new(0)));
}
