use finite_poly::math::field_element::FieldElement;

type FE = FieldElement<23>;

// 2^127 - 1, a prime
const MERSENNE: u128 = 170141183460469231731687303715884105727;
type Big = FieldElement<MERSENNE>;

#[test]
fn new_reduces_modulo_order() {
    assert_eq!(FE::new(25), FE::new(2));
    assert_eq!(FE::new(23).value(), 0);
    assert_eq!(FE::new(u128::MAX).value(), u128::MAX % 23);
}

#[test]
fn addition_wraps_around() {
    assert_eq!(FE::new(20) + FE::new(5), FE::new(2));
    assert_eq!(FE::new(20).add_element(FE::new(3)).value(), 0);
}

#[test]
fn subtraction_wraps_around() {
    assert_eq!(FE::new(2) - FE::new(4), FE::new(21));
    assert_eq!(FE::new(4) - FE::new(2), FE::new(2));
}

#[test]
fn negation() {
    assert_eq!(-FE::new(0), FE::new(0));
    assert_eq!(-FE::new(1), FE::new(22));
    assert_eq!(FE::new(7) + (-FE::new(7)), FE::zero());
}

#[test]
fn multiplication() {
    assert_eq!(FE::new(5) * FE::new(7), FE::new(12));
    assert_eq!(FE::new(22) * FE::new(22), FE::new(1));
}

#[test]
fn multiplication_near_the_top_of_u128_does_not_overflow() {
    // 2^126 * 2 = 2^127 = 1 modulo 2^127 - 1
    let a = Big::new(1u128 << 126);
    assert_eq!(a * Big::new(2), Big::new(1));
    // (p - 1)^2 = 1 modulo p
    let m = Big::new(MERSENNE - 1);
    assert_eq!(m * m, Big::one());
    assert_eq!(m + m, Big::new(MERSENNE - 2));
}

#[test]
fn pow_follows_fermat() {
    for x in 1..23u128 {
        assert_eq!(FE::new(x).pow(22), FE::one());
    }
    assert_eq!(FE::new(2).pow(10), FE::new(1024 % 23));
    assert_eq!(FE::new(0).pow(0), FE::one());
    assert_eq!(FE::new(0).pow(5), FE::zero());
}

#[test]
fn inverse_times_element_is_one() {
    for x in 1..23u128 {
        let e = FE::new(x);
        assert_eq!(e * e.inv(), FE::one());
    }
    assert_eq!(FE::new(2).inv(), FE::new(12));
    let b = Big::new(123456789);
    assert_eq!(b * b.inv(), Big::one());
}

#[test]
fn inverse_of_zero_is_zero() {
    assert_eq!(FE::zero().inv(), FE::zero());
    assert_eq!(FE::new(5) / FE::zero(), FE::zero());
}

#[test]
fn division() {
    assert_eq!(FE::new(1) / FE::new(2), FE::new(12));
    assert_eq!((FE::new(6) / FE::new(3)) * FE::new(3), FE::new(6));
    assert_eq!(FE::new(0) / FE::new(3), FE::new(0));
}

#[test]
fn inverse_modulo_a_composite_order() {
    type Six = FieldElement<6>;
    // 5 is coprime to 6 and its own inverse
    assert_eq!(Six::new(5).inv(), Six::new(5));
    // 4 is not invertible modulo 6: 4 * inv(4) is gcd(6, 4) = 2
    assert_eq!(Six::new(4) * Six::new(4).inv(), Six::new(2));
}

#[test]
fn one_modulo_one_is_zero() {
    assert_eq!(FieldElement::<1>::one().value(), 0);
}
