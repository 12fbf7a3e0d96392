//! An exact probability: a rational number between zero and one.

use crate::rational::{
    frac_add, frac_eq, frac_mul, frac_reduce, frac_reduced, gcd, lemma_complement_reduced,
    lemma_frac_reduce,
};
use vstd::prelude::*;

verus! {

/// A probability is an exact rational number in the closed interval from 0
/// to 1, kept in lowest terms.
///
/// The invariant [`Probability::wf`] (positive denominator, numerator at
/// most the denominator, fraction fully reduced) is established by every
/// constructor and preserved by every operation, so two probabilities denote
/// the same rational number exactly when they are equal field by field.
#[derive(Copy, Clone, PartialEq, Eq, Hash, Debug, Structural)]
pub struct Probability {
    numerator: u64,
    denominator: u64,
}

impl View for Probability {
    type V = (int, int);

    closed spec fn view(&self) -> (int, int) {
        (self.numerator as int, self.denominator as int)
    }
}

/// Errors that can arise when constructing a probability from a fraction.
#[derive(Copy, Clone, PartialEq, Eq, PartialOrd, Ord, Hash, Debug, Structural)]
pub enum ProbabilityRatioError {
    /// The denominator was zero.
    DenominatorZero,
    /// The fraction was below zero.
    RatioLowerZero,
    /// The fraction was above one.
    RatioGreaterOne,
}

/// Euclid's algorithm on machine integers.
fn gcd_u64(a: u64, b: u64) -> (g: u64)
    requires
        a > 0 || b > 0,
    ensures
        g as int == gcd(a as int, b as int),
{
    let mut x = a;
    let mut y = b;
    while y != 0
        invariant
            x > 0 || y > 0,
            gcd(x as int, y as int) == gcd(a as int, b as int),
        decreases y,
    {
        let r = x % y;
        x = y;
        y = r;
    }
    x
}

impl Probability {
    /// The invariant of the type: a reduced fraction between 0 and 1.
    pub open spec fn wf(self) -> bool {
        frac_reduced(self@) && self@.0 <= self@.1
    }

    /// Divides numerator and denominator by their gcd.
    fn reduced(numerator: u64, denominator: u64) -> (p: Probability)
        requires
            denominator > 0,
            numerator <= denominator,
        ensures
            p.wf(),
            p@ == frac_reduce((numerator as int, denominator as int)),
            frac_eq(p@, (numerator as int, denominator as int)),
            (denominator as int) % p@.1 == 0,
            p@.1 <= denominator,
            numerator > 0 ==> p@.0 > 0,
            numerator == 0 ==> p@ == (0int, 1int),
            numerator == denominator ==> p@ == (1int, 1int),
    {
        proof {
            lemma_frac_reduce((numerator as int, denominator as int));
            crate::rational::lemma_gcd_divides(numerator as int, denominator as int);
        }
        let g = gcd_u64(numerator, denominator);
        Probability { numerator: numerator / g, denominator: denominator / g }
    }

    /// Creates the probability `numerator / denominator`.
    ///
    /// Callers must pass a positive denominator and a fraction of at most
    /// one; [`Probability::try_new`] reports those cases as errors instead.
    pub fn new(numerator: u64, denominator: u64) -> (p: Probability)
        requires
            denominator != 0,
            numerator <= denominator,
        ensures
            p.wf(),
            p@ == frac_reduce((numerator as int, denominator as int)),
            frac_eq(p@, (numerator as int, denominator as int)),
    {
        Self::reduced(numerator, denominator)
    }

    /// Creates the probability `numerator / denominator`, rejecting a zero
    /// denominator and a fraction above one.
    pub fn try_new(numerator: u64, denominator: u64) -> (r: Result<
        Probability,
        ProbabilityRatioError,
    >)
        ensures
            denominator == 0 ==> r == Err::<Probability, _>(
                ProbabilityRatioError::DenominatorZero,
            ),
            denominator != 0 && numerator > denominator ==> r == Err::<Probability, _>(
                ProbabilityRatioError::RatioGreaterOne,
            ),
            denominator != 0 && numerator <= denominator ==> ({
                &&& r is Ok
                &&& r->Ok_0.wf()
                &&& frac_eq(r->Ok_0@, (numerator as int, denominator as int))
            }),
    {
        if denominator == 0 {
            Err(ProbabilityRatioError::DenominatorZero)
        } else if numerator > denominator {
            Err(ProbabilityRatioError::RatioGreaterOne)
        } else {
            Ok(Self::reduced(numerator, denominator))
        }
    }

    /// The probability 0: an event that never occurs.
    pub fn zero() -> (p: Probability)
        ensures
            p.wf(),
            p@ == (0int, 1int),
    {
        proof {
            lemma_gcd_one_zero();
        }
        Probability { numerator: 0, denominator: 1 }
    }

    /// The probability 1: an event that always occurs.
    pub fn one() -> (p: Probability)
        ensures
            p.wf(),
            p@ == (1int, 1int),
    {
        proof {
            lemma_gcd_one_one();
        }
        Probability { numerator: 1, denominator: 1 }
    }

    /// Returns the reduced fraction as `(numerator, denominator)`.
    pub fn ratio(&self) -> (r: (u64, u64))
        ensures
            (r.0 as int, r.1 as int) == self@,
    {
        (self.numerator, self.denominator)
    }

    /// Returns the numerator of the reduced fraction.
    pub fn numerator(&self) -> (n: u64)
        ensures
            n as int == self@.0,
    {
        self.numerator
    }

    /// Returns the denominator of the reduced fraction.
    pub fn denominator(&self) -> (d: u64)
        ensures
            d as int == self@.1,
    {
        self.denominator
    }

    /// Returns the complementary probability `1 - self`, exactly.
    pub fn complementary(&self) -> (r: Probability)
        requires
            self.wf(),
        ensures
            r.wf(),
            r@ == (self@.1 - self@.0, self@.1),
            frac_eq(frac_add(self@, r@), (1int, 1int)),
    {
        proof {
            lemma_complement_reduced(self@.0, self@.1);
            assert(frac_eq(frac_add(self@, (self@.1 - self@.0, self@.1)), (1int, 1int)))
                by (nonlinear_arith)
                requires
                    self@.1 > 0;
        }
        Probability { numerator: self.denominator - self.numerator, denominator: self.denominator }
    }

    /// Multiplies two probabilities; the product of two values in the unit
    /// interval is again in the unit interval.
    ///
    /// The denominators' product must fit in a machine word; the reduced
    /// result then fits as well.
    pub fn mul(self, rhs: Probability) -> (r: Probability)
        requires
            self.wf(),
            rhs.wf(),
            self@.1 * rhs@.1 <= u64::MAX,
    ensures
            r.wf(),
            r@ == frac_reduce(frac_mul(self@, rhs@)),
            frac_eq(r@, frac_mul(self@, rhs@)),
            (self@.1 * rhs@.1) % r@.1 == 0,
            r@.1 <= self@.1 * rhs@.1,
    {
        proof {
            assert(self@.0 * rhs@.0 <= self@.1 * rhs@.1) by (nonlinear_arith)
                requires
                    0 <= self@.0 <= self@.1,
                    0 <= rhs@.0 <= rhs@.1;
            assert(self@.1 * rhs@.1 > 0) by (nonlinear_arith)
                requires
                    self@.1 > 0,
                    rhs@.1 > 0;
        }
        let n = self.numerator * rhs.numerator;
        let d = self.denominator * rhs.denominator;
        Self::reduced(n, d)
    }
}

/// The textual form of a reduced fraction: the numerator alone when the
/// denominator is 1, otherwise `numerator/denominator`.
pub open spec fn frac_text(f: (int, int)) -> Seq<char> {
    if f.1 == 1 {
        crate::decimal::dec_rep(f.0)
    } else {
        crate::decimal::dec_rep(f.0) + seq!['/'] + crate::decimal::dec_rep(f.1)
    }
}

impl Probability {
    /// Renders the probability as text, e.g. `1/2`, or `0` and `1` for the
    /// two whole values.
    pub fn to_text(&self) -> (s: String)
        ensures
            s@ == frac_text(self@),
    {
        let mut out = String::new();
        crate::decimal::push_decimal(self.numerator, &mut out);
        if self.denominator != 1 {
            proof {
                reveal_strlit("/");
            }
            out.append("/");
            crate::decimal::push_decimal(self.denominator, &mut out);
            assert(out@ =~= frac_text(self@));
        } else {
            assert(out@ =~= frac_text(self@));
        }
        out
    }
}

impl Default for Probability {
    /// The default probability is 0.
    fn default() -> (p: Probability)
        ensures
            p.wf(),
            p@ == (0int, 1int),
    {
        Probability::zero()
    }
}

impl PartialOrd for Probability {
    /// Probabilities are ordered as the rational numbers they denote.
    fn partial_cmp(&self, other: &Self) -> (r: Option<core::cmp::Ordering>) {
        proof {
            lemma_u64_square_fits(self@.0, other@.1);
            lemma_u64_square_fits(other@.0, self@.1);
        }
        let lhs = (self.numerator as u128) * (other.denominator as u128);
        let rhs = (other.numerator as u128) * (self.denominator as u128);
        if lhs < rhs {
            Some(core::cmp::Ordering::Less)
        } else if lhs == rhs {
            Some(core::cmp::Ordering::Equal)
        } else {
            Some(core::cmp::Ordering::Greater)
        }
    }
}

impl vstd::std_specs::cmp::PartialOrdSpecImpl for Probability {
    open spec fn obeys_partial_cmp_spec() -> bool {
        true
    }

    open spec fn partial_cmp_spec(&self, other: &Self) -> Option<core::cmp::Ordering> {
        if self@.0 * other@.1 < other@.0 * self@.1 {
            Some(core::cmp::Ordering::Less)
        } else if self@.0 * other@.1 == other@.0 * self@.1 {
            Some(core::cmp::Ordering::Equal)
        } else {
            Some(core::cmp::Ordering::Greater)
        }
    }
}

/// The product of two values below 2^64 fits in 128 bits.
proof fn lemma_u64_square_fits(a: int, b: int)
    by (nonlinear_arith)
    requires
        0 <= a <= u64::MAX,
        0 <= b <= u64::MAX,
    ensures
        a * b <= u128::MAX,
{
}

/// One is coprime to zero.
proof fn lemma_gcd_one_zero()
    ensures
        gcd(0, 1) == 1,
{
    assert(0int % 1int == 0) by (nonlinear_arith);
    assert(gcd(1, 0) == 1);
    assert(gcd(0, 1) == gcd(1, 0int % 1int));
}

/// One is coprime to itself.
proof fn lemma_gcd_one_one()
    ensures
        gcd(1, 1) == 1,
{
    assert(1int % 1int == 0) by (nonlinear_arith);
    assert(gcd(1, 0) == 1);
    assert(gcd(1, 1) == gcd(1, 1int % 1int));
}

} // verus!
