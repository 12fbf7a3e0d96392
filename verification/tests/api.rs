use stochasta::{CardDeck, CardDrawSequence, CardDrawTree, Probability, ProbabilityRatioError};

#[test]
fn default_implemented() {
    let _: Probability = Default::default();
    let _: CardDeck = Default::default();
    let _: CardDrawSequence = Default::default();
    let _: CardDrawTree = Default::default();
}

fn assert_impls_debug<T: std::fmt::Debug>() {}
fn assert_impls_clone<T: Clone>() {}
fn assert_impls_copy<T: Copy>() {}
fn assert_impls_eq<T: Eq>() {}
fn assert_impls_hash<T: std::hash::Hash>() {}
fn assert_impls_send<T: Send>() {}
fn assert_impls_sync<T: Sync>() {}

#[test]
fn check_error() {
    // The error type carries everything an error value needs: it can be
    // copied, compared, hashed and printed.
    assert_impls_debug::<ProbabilityRatioError>();
    assert_impls_clone::<ProbabilityRatioError>();
    assert_impls_copy::<ProbabilityRatioError>();
    assert_impls_eq::<ProbabilityRatioError>();
    assert_impls_hash::<ProbabilityRatioError>();
    assert!(!format!("{:?}", ProbabilityRatioError::DenominatorZero).is_empty());
}

#[test]
fn check_basics() {
    assert_impls_debug::<Probability>();
    assert_impls_debug::<CardDeck>();
    assert_impls_debug::<CardDrawSequence>();
    assert_impls_eq::<Probability>();
    assert_impls_eq::<CardDrawSequence>();
    assert_impls_hash::<Probability>();
    assert_impls_hash::<CardDrawSequence>();
}

#[test]
fn check_clone() {
    assert_impls_clone::<Probability>();
    assert_impls_clone::<CardDeck>();
    assert_impls_clone::<CardDrawSequence>();
}

#[test]
fn check_copy() {
    assert_impls_copy::<Probability>();
    assert_impls_copy::<ProbabilityRatioError>();
}

#[test]
fn check_send() {
    assert_impls_send::<Probability>();
    assert_impls_send::<ProbabilityRatioError>();
    assert_impls_send::<CardDeck>();
    assert_impls_send::<CardDrawSequence>();
    assert_impls_send::<CardDrawTree>();
}

#[test]
fn check_sync() {
    assert_impls_sync::<Probability>();
    assert_impls_sync::<ProbabilityRatioError>();
    assert_impls_sync::<CardDeck>();
    assert_impls_sync::<CardDrawSequence>();
    assert_impls_sync::<CardDrawTree>();
}
