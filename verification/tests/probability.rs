use stochasta::{Probability, ProbabilityRatioError};

#[test]
fn constants() {
    assert_eq!(Probability::zero().ratio(), (0, 1));
    assert_eq!(Probability::one().ratio(), (1, 1));
}

#[test]
fn new_standard() {
    assert_eq!(Probability::new(0, 2).ratio(), (0, 1));
    assert_eq!(Probability::new(1, 2).ratio(), (1, 2));
    assert_eq!(Probability::new(2, 2).ratio(), (1, 1));
}

#[test]
fn try_new_standard() {
    assert!(Probability::try_new(1, 2).is_ok());
    assert_eq!(Probability::try_new(1, 2).unwrap(), Probability::new(1, 2));
    assert_eq!(
        Probability::try_new(1, 0),
        Err(ProbabilityRatioError::DenominatorZero)
    );
    assert_eq!(
        Probability::try_new(2, 1),
        Err(ProbabilityRatioError::RatioGreaterOne)
    );
}

#[test]
fn reduction() {
    assert_eq!(Probability::new(2, 8).ratio(), (1, 4));
    assert_eq!(Probability::new(4, 9).ratio(), (4, 9));
    assert_eq!(Probability::new(9, 9).ratio(), (1, 1));
}

#[test]
fn complementary() {
    let one_third = Probability::new(1, 3);
    let two_third = one_third.complementary();
    assert_eq!(two_third, Probability::new(2, 3));
    assert_eq!(Probability::one().complementary(), Probability::zero());
}

#[test]
fn multiplication() {
    let half = Probability::new(1, 2);
    let third = Probability::new(1, 3);
    assert_eq!(half.mul(third), Probability::new(1, 6));
    assert_eq!(half.mul(Probability::zero()), Probability::zero());
    assert_eq!(half.mul(Probability::one()), half);
    // The product is reduced: 2/3 * 3/4 = 1/2.
    assert_eq!(
        Probability::new(2, 3).mul(Probability::new(3, 4)),
        Probability::new(1, 2)
    );
}

#[test]
fn accessors() {
    let p = Probability::new(3, 9);
    assert_eq!(p.numerator(), 1);
    assert_eq!(p.denominator(), 3);
    assert_eq!(p.to_text(), "1/3");
    assert_eq!(Probability::zero().to_text(), "0");
    assert_eq!(Probability::one().to_text(), "1");
}

#[test]
fn derive_copy() {
    let x = Probability::new(1, 3);
    let y = x;
    assert_eq!(x, y);
}

#[test]
fn derive_ord() {
    let one_over_three = Probability::new(1, 3);
    let four_over_seven = Probability::new(4, 7);
    let eight_over_nine = Probability::new(8, 9);
    assert!(one_over_three < four_over_seven);
    assert!(four_over_seven < eight_over_nine);
    assert!(one_over_three < eight_over_nine);
    // Rational order, not field-by-field order.
    assert!(Probability::new(1, 3) < Probability::new(1, 2));
}

#[test]
fn derive_eq() {
    let one_over_four = Probability::new(1, 4);
    let two_over_eight = Probability::new(2, 8);
    assert_eq!(one_over_four, two_over_eight);
    assert_ne!(one_over_four, Probability::zero());
    assert_ne!(one_over_four, Probability::one());
}

#[test]
fn default_is_zero() {
    let p: Probability = Default::default();
    assert_eq!(p, Probability::zero());
}

#[test]
fn error_variants_are_distinct() {
    assert_ne!(
        ProbabilityRatioError::DenominatorZero,
        ProbabilityRatioError::RatioGreaterOne
    );
    assert_ne!(
        ProbabilityRatioError::DenominatorZero,
        ProbabilityRatioError::RatioLowerZero
    );
    assert_ne!(
        ProbabilityRatioError::RatioLowerZero,
        ProbabilityRatioError::RatioGreaterOne
    );
}
