//! Binomial coefficients as plain data.

use vstd::prelude::*;

verus! {

/// A [binomial coefficient], described as "n over k".
///
/// [binomial coefficient]: https://en.wikipedia.org/wiki/Binomial_coefficient
#[derive(Default)]
pub struct BinomialCoefficient {
    n: u64,
    k: u64,
}

impl BinomialCoefficient {
    /// The choice is well-formed: one cannot choose more than there is.
    pub closed spec fn wf(self) -> bool {
        self.n >= self.k
    }

    /// The upper number, for specifications.
    pub closed spec fn spec_n(self) -> u64 {
        self.n
    }

    /// The lower number, for specifications.
    pub closed spec fn spec_k(self) -> u64 {
        self.k
    }

    /// Creates a new `BinomialCoefficient`; `n` must be at least `k`.
    pub fn new(n: u64, k: u64) -> (c: BinomialCoefficient)
        requires
            n >= k,
        ensures
            c.wf(),
            c.spec_n() == n,
            c.spec_k() == k,
    {
        BinomialCoefficient { n, k }
    }

    /// Tries to create a new `BinomialCoefficient`; `None` exactly when
    /// `n` is less than `k`.
    pub fn try_new(n: u64, k: u64) -> (c: Option<BinomialCoefficient>)
        ensures
            n >= k <==> c is Some,
            c matches Some(b) ==> b.wf() && b.spec_n() == n && b.spec_k() == k,
    {
        if n >= k {
            Some(BinomialCoefficient { n, k })
        } else {
            None
        }
    }

    /// Returns `n`.
    pub fn n(&self) -> (n: u64)
        ensures
            n == self.spec_n(),
    {
        self.n
    }

    /// Returns `k`.
    pub fn k(&self) -> (k: u64)
        ensures
            k == self.spec_k(),
    {
        self.k
    }
}

} // verus!
