use stochasta::binomial_coefficient::BinomialCoefficient;
use stochasta::util::factorial;

#[test]
fn factorial_works() {
    assert_eq!(factorial(0), 1);
    assert_eq!(factorial(1), 1);
    assert_eq!(factorial(2), 2);
    assert_eq!(factorial(3), 6);
    assert_eq!(factorial(4), 24);
    assert_eq!(factorial(5), 120);
    assert_eq!(factorial(6), 720);
    assert_eq!(factorial(7), 5_040);
    assert_eq!(factorial(8), 40_320);
    assert_eq!(factorial(9), 362_880);
}

#[test]
fn factorial_limit() {
    assert_eq!(factorial(20), 2_432_902_008_176_640_000);
}

#[test]
fn binomial_coefficient_new() {
    let c = BinomialCoefficient::new(5, 2);
    assert_eq!(c.n(), 5);
    assert_eq!(c.k(), 2);
}

#[test]
fn binomial_coefficient_try_new() {
    assert!(BinomialCoefficient::try_new(5, 2).is_some());
    assert!(BinomialCoefficient::try_new(2, 2).is_some());
    assert!(BinomialCoefficient::try_new(1, 2).is_none());
}
