//! Mathematical model of non-negative rational numbers.
//!
//! A fraction is modelled in specifications as a pair `(numerator,
//! denominator)` of mathematical integers with a positive denominator.
//! Equality of fractions is equality of cross products, so it is independent
//! of the chosen representative. The executable counterpart of this module is
//! [`crate::probability::Probability`], which keeps a canonical (fully
//! reduced) representative.

use vstd::arithmetic::div_mod::*;
use vstd::arithmetic::mul::*;
use vstd::prelude::*;

verus! {

/// A well-formed fraction: positive denominator, non-negative numerator.
pub open spec fn frac_wf(f: (int, int)) -> bool {
    f.1 > 0 && f.0 >= 0
}

/// Two fractions denote the same rational number.
pub open spec fn frac_eq(a: (int, int), b: (int, int)) -> bool {
    a.0 * b.1 == b.0 * a.1
}

/// `a` denotes a rational no greater than `b`.
pub open spec fn frac_le(a: (int, int), b: (int, int)) -> bool {
    a.0 * b.1 <= b.0 * a.1
}

/// The product of two fractions.
pub open spec fn frac_mul(a: (int, int), b: (int, int)) -> (int, int) {
    (a.0 * b.0, a.1 * b.1)
}

/// The sum of two fractions.
pub open spec fn frac_add(a: (int, int), b: (int, int)) -> (int, int) {
    (a.0 * b.1 + b.0 * a.1, a.1 * b.1)
}

/// The sum of a sequence of fractions, folded from the left.
pub open spec fn frac_sum(s: Seq<(int, int)>) -> (int, int)
    decreases s.len(),
{
    if s.len() == 0 {
        (0, 1)
    } else {
        frac_add(frac_sum(s.drop_last()), s.last())
    }
}

/// The greatest common divisor, by Euclid's algorithm.
pub open spec fn gcd(a: int, b: int) -> int
    decreases b,
{
    if b <= 0 {
        a
    } else {
        gcd(b, a % b)
    }
}

/// The canonical representative of a fraction: both components divided by
/// their greatest common divisor.
pub open spec fn frac_reduce(f: (int, int)) -> (int, int) {
    (f.0 / gcd(f.0, f.1), f.1 / gcd(f.0, f.1))
}

/// A fraction that is already in canonical form.
pub open spec fn frac_reduced(f: (int, int)) -> bool {
    frac_wf(f) && gcd(f.0, f.1) == 1
}

pub proof fn lemma_frac_eq_symmetric(a: (int, int), b: (int, int))
    requires
        frac_eq(a, b),
    ensures
        frac_eq(b, a),
{
}

pub proof fn lemma_frac_eq_transitive(a: (int, int), b: (int, int), c: (int, int))
    by (nonlinear_arith)
    requires
        frac_wf(b),
        frac_eq(a, b),
        frac_eq(b, c),
    ensures
        frac_eq(a, c),
{
}

pub proof fn lemma_frac_mul_congruence(a: (int, int), b: (int, int), x: (int, int), y: (int, int))
    requires
        frac_eq(a, x),
        frac_eq(b, y),
    ensures
        frac_eq(frac_mul(a, b), frac_mul(x, y)),
{
    assert((a.0 * x.1) * (b.0 * y.1) == (x.0 * a.1) * (y.0 * b.1));
    assert((a.0 * b.0) * (x.1 * y.1) == (a.0 * x.1) * (b.0 * y.1)) by (nonlinear_arith);
    assert((x.0 * y.0) * (a.1 * b.1) == (x.0 * a.1) * (y.0 * b.1)) by (nonlinear_arith);
}

pub proof fn lemma_frac_add_congruence(a: (int, int), b: (int, int), x: (int, int), y: (int, int))
    requires
        frac_wf(a),
        frac_wf(b),
        frac_wf(x),
        frac_wf(y),
        frac_eq(a, x),
        frac_eq(b, y),
    ensures
        frac_eq(frac_add(a, b), frac_add(x, y)),
{
    assert((a.0 * b.1) * (x.1 * y.1) == (x.0 * y.1) * (a.1 * b.1)) by (nonlinear_arith)
        requires
            a.0 * x.1 == x.0 * a.1;
    assert((b.0 * a.1) * (x.1 * y.1) == (y.0 * x.1) * (a.1 * b.1)) by (nonlinear_arith)
        requires
            b.0 * y.1 == y.0 * b.1;
    assert((a.0 * b.1 + b.0 * a.1) * (x.1 * y.1) == (x.0 * y.1 + y.0 * x.1) * (a.1 * b.1))
        by (nonlinear_arith)
        requires
            (a.0 * b.1) * (x.1 * y.1) == (x.0 * y.1) * (a.1 * b.1),
            (b.0 * a.1) * (x.1 * y.1) == (y.0 * x.1) * (a.1 * b.1);
}

pub proof fn lemma_frac_mul_wf(a: (int, int), b: (int, int))
    by (nonlinear_arith)
    requires
        frac_wf(a),
        frac_wf(b),
    ensures
        frac_wf(frac_mul(a, b)),
{
}

pub proof fn lemma_frac_add_wf(a: (int, int), b: (int, int))
    by (nonlinear_arith)
    requires
        frac_wf(a),
        frac_wf(b),
    ensures
        frac_wf(frac_add(a, b)),
{
}

/// Multiplying by a fraction that is at most one cannot increase a
/// non-negative fraction, and the product of values at most one stays at
/// most one.
pub proof fn lemma_frac_mul_le(a: (int, int), b: (int, int))
    by (nonlinear_arith)
    requires
        frac_wf(a),
        frac_wf(b),
        frac_le(a, (1, 1)),
    ensures
        frac_le(frac_mul(a, b), b),
        frac_le(b, (1, 1)) ==> frac_le(frac_mul(a, b), (1, 1)),
{
}

/// A linear combination of two multiples of `m` is a multiple of `m`.
proof fn lemma_mod_linear(x: int, c: int, y: int, m: int)
    requires
        m > 0,
        x % m == 0,
        y % m == 0,
    ensures
        (x + c * y) % m == 0,
{
    lemma_mul_mod_noop_right(c, y, m);
    lemma_small_mod(0, m as nat);
    lemma_add_mod_noop(x, c * y, m);
}

/// Euclid's algorithm yields a positive common divisor of its arguments.
pub proof fn lemma_gcd_divides(a: int, b: int)
    requires
        a >= 0,
        b >= 0,
        a > 0 || b > 0,
    ensures
        gcd(a, b) > 0,
        a % gcd(a, b) == 0,
        b % gcd(a, b) == 0,
    decreases b,
{
    if b == 0 {
        lemma_mod_self_0(a);
        lemma_small_mod(0, a as nat);
    } else {
        lemma_mod_division_less_than_divisor(a, b);
        lemma_gcd_divides(b, a % b);
        let g = gcd(b, a % b);
        lemma_fundamental_div_mod(a, b);
        lemma_mod_linear(a % b, a / b, b, g);
        assert(a == (a % b) + (a / b) * b) by {
            lemma_mul_is_commutative(a / b, b);
        }
    }
}

/// Any common divisor of the arguments divides their gcd.
pub proof fn lemma_gcd_greatest(a: int, b: int, d: int)
    requires
        a >= 0,
        b >= 0,
        a > 0 || b > 0,
        d > 0,
        a % d == 0,
        b % d == 0,
    ensures
        gcd(a, b) % d == 0,
    decreases b,
{
    if b > 0 {
        lemma_mod_division_less_than_divisor(a, b);
        lemma_fundamental_div_mod(a, b);
        lemma_mod_linear(a, -(a / b), b, d);
        assert(a % b == a + (-(a / b)) * b) by {
            lemma_mul_is_commutative(a / b, b);
            lemma_mul_unary_negation(a / b, b);
        }
        lemma_gcd_greatest(b, a % b, d);
    }
}

/// A positive divisor of a positive number is no greater than it.
pub proof fn lemma_divisor_le(d: int, n: int)
    requires
        d > 0,
        n > 0,
        n % d == 0,
    ensures
        d <= n,
{
    if d > n {
        lemma_small_mod(n as nat, d as nat);
    }
}

/// Exact division: a multiple of `d` is `d` times its quotient.
pub proof fn lemma_div_exact(n: int, d: int)
    requires
        d > 0,
        n % d == 0,
    ensures
        n == d * (n / d),
        n == (n / d) * d,
{
    lemma_fundamental_div_mod(n, d);
    lemma_mul_is_commutative(d, n / d);
}

/// Reducing by the gcd yields an equivalent canonical fraction, whose
/// denominator divides the original one.
pub proof fn lemma_frac_reduce(f: (int, int))
    requires
        frac_wf(f),
    ensures
        ({
            let r = frac_reduce(f);
            &&& frac_reduced(r)
            &&& frac_eq(r, f)
            &&& r.1 <= f.1
            &&& f.1 % r.1 == 0
            &&& (f.0 <= f.1 ==> r.0 <= r.1)
            &&& (f.0 > 0 ==> r.0 > 0)
            &&& (f.0 == 0 ==> r == (0int, 1int))
            &&& (f.0 == f.1 ==> r == (1int, 1int))
        }),
{
    let a = f.0;
    let b = f.1;
    let g = gcd(a, b);
    lemma_gcd_divides(a, b);
    let aa = a / g;
    let bb = b / g;
    lemma_div_exact(a, g);
    lemma_div_exact(b, g);
    lemma_div_pos_is_pos(a, g);
    lemma_divisor_le(g, b);
    lemma_div_is_ordered(g, b, g);
    lemma_div_by_self(g);
    assert(bb >= 1);
    assert(aa * b == a * bb) by (nonlinear_arith)
        requires
            a == g * aa,
            b == g * bb;
    // The quotients are coprime: a common divisor h of them would make g * h
    // a common divisor of a and b, hence a divisor of g.
    let h = gcd(aa, bb);
    lemma_gcd_divides(aa, bb);
    lemma_div_exact(aa, h);
    lemma_div_exact(bb, h);
    assert(a == (aa / h) * (g * h)) by (nonlinear_arith)
        requires
            a == g * aa,
            aa == h * (aa / h);
    assert(b == (bb / h) * (g * h)) by (nonlinear_arith)
        requires
            b == g * bb,
            bb == h * (bb / h);
    assert(g * h > 0) by (nonlinear_arith)
        requires
            g > 0,
            h > 0;
    lemma_mod_multiples_basic(aa / h, g * h);
    lemma_mod_multiples_basic(bb / h, g * h);
    lemma_gcd_greatest(a, b, g * h);
    lemma_divisor_le(g * h, g);
    assert(h == 1) by (nonlinear_arith)
        requires
            g > 0,
            h > 0,
            g * h <= g;
    // The reduced denominator divides the original one.
    lemma_mod_multiples_basic(g, bb);
    assert(b % bb == 0) by {
        lemma_mul_is_commutative(g, bb);
    }
    // Remaining bounds and special cases.
    if a <= b {
        lemma_div_is_ordered(a, b, g);
    }
    if a > 0 {
        lemma_divisor_le(g, a);
        lemma_div_is_ordered(g, a, g);
    }
    if a == 0 {
        lemma_small_mod(0, b as nat);
        assert(gcd(b, 0) == b);
        assert(gcd(0, b) == gcd(b, 0));
        lemma_div_of0(g);
    }
    if a == b {
        lemma_mod_self_0(b);
        assert(gcd(b, 0) == b);
        assert(gcd(b, b) == gcd(b, b % b));
    }
}

/// The complement within one of a reduced fraction is itself reduced.
pub proof fn lemma_complement_reduced(n: int, d: int)
    requires
        0 <= n <= d,
        d > 0,
        gcd(n, d) == 1,
    ensures
        gcd(d - n, d) == 1,
{
    let h = gcd(d - n, d);
    lemma_gcd_divides(d - n, d);
    lemma_mod_linear(d, -1, d - n, h);
    assert(n == d + (-1) * (d - n));
    if n > 0 || d > 0 {
        lemma_gcd_greatest(n, d, h);
    }
    if h > 1 {
        lemma_small_mod(1, h as nat);
    }
}



/// The sum of well-formed fractions is well-formed.
pub proof fn lemma_frac_sum_wf(s: Seq<(int, int)>)
    requires
        forall|i: int| 0 <= i < s.len() ==> frac_wf(#[trigger] s[i]),
    ensures
        frac_wf(frac_sum(s)),
    decreases s.len(),
{
    if s.len() > 0 {
        assert(forall|i: int| 0 <= i < s.len() - 1 ==> s.drop_last()[i] == s[i]);
        lemma_frac_sum_wf(s.drop_last());
        lemma_frac_add_wf(frac_sum(s.drop_last()), s.last());
    }
}

/// Addition of fractions is associative up to equality of rationals.
pub proof fn lemma_frac_add_assoc(x: (int, int), y: (int, int), z: (int, int))
    requires
        frac_wf(x),
        frac_wf(y),
        frac_wf(z),
    ensures
        frac_eq(frac_add(frac_add(x, y), z), frac_add(x, frac_add(y, z))),
{
    lemma_add_assoc_parts(x.0, x.1, y.0, y.1, z.0, z.1);
}

/// Multiplication distributes over addition up to equality of rationals.
pub proof fn lemma_frac_mul_distributes(p: (int, int), x: (int, int), y: (int, int))
    requires
        frac_wf(p),
        frac_wf(x),
        frac_wf(y),
    ensures
        frac_eq(frac_add(frac_mul(p, x), frac_mul(p, y)), frac_mul(p, frac_add(x, y))),
{
    let r = frac_mul(p, frac_add(x, y));
    // The left-hand side is the right-hand side with both components
    // scaled by the denominator of `p`.
    lemma_distribute_parts(p.0, p.1, x.0, x.1, y.0, y.1);
    lemma_scale_eq(p.1, r.0, r.1);
}

/// The component identity behind associativity of fraction addition.
proof fn lemma_add_assoc_parts(x0: int, x1: int, y0: int, y1: int, z0: int, z1: int)
    by (nonlinear_arith)
    ensures
        (x0 * y1 + y0 * x1) * z1 + z0 * (x1 * y1) == x0 * (y1 * z1) + (y0 * z1 + z0 * y1) * x1,
        (x1 * y1) * z1 == x1 * (y1 * z1),
{
}

/// The component identity behind distributivity of fraction
/// multiplication over addition.
proof fn lemma_distribute_parts(p0: int, p1: int, x0: int, x1: int, y0: int, y1: int)
    ensures
        (p0 * x0) * (p1 * y1) + (p0 * y0) * (p1 * x1) == p1 * (p0 * (x0 * y1 + y0 * x1)),
        (p1 * x1) * (p1 * y1) == p1 * (p1 * (x1 * y1)),
{
    assert((p0 * x0) * (p1 * y1) == (p1 * p0) * (x0 * y1)) by (nonlinear_arith);
    assert((p0 * y0) * (p1 * x1) == (p1 * p0) * (y0 * x1)) by (nonlinear_arith);
    assert((p1 * p0) * (x0 * y1) + (p1 * p0) * (y0 * x1) == (p1 * p0) * (x0 * y1 + y0 * x1))
        by (nonlinear_arith);
    assert((p1 * p0) * (x0 * y1 + y0 * x1) == p1 * (p0 * (x0 * y1 + y0 * x1)))
        by (nonlinear_arith);
    assert((p1 * x1) * (p1 * y1) == p1 * (p1 * (x1 * y1))) by (nonlinear_arith);
}

/// Scaling both components of a fraction leaves the rational unchanged.
proof fn lemma_scale_eq(m: int, u0: int, u1: int)
    by (nonlinear_arith)
    ensures
        (m * u0) * u1 == u0 * (m * u1),
{
}

/// The sum of a concatenation is the sum of the two parts.
pub proof fn lemma_frac_sum_concat(a: Seq<(int, int)>, b: Seq<(int, int)>)
    requires
        forall|i: int| 0 <= i < a.len() ==> frac_wf(#[trigger] a[i]),
        forall|i: int| 0 <= i < b.len() ==> frac_wf(#[trigger] b[i]),
    ensures
        frac_eq(frac_sum(a + b), frac_add(frac_sum(a), frac_sum(b))),
        frac_wf(frac_sum(a + b)),
    decreases b.len(),
{
    lemma_frac_sum_wf(a);
    lemma_frac_sum_wf(b);
    assert(forall|i: int| 0 <= i < a.len() + b.len() ==> frac_wf(#[trigger] (a + b)[i]));
    lemma_frac_sum_wf(a + b);
    if b.len() == 0 {
        assert(a + b =~= a);
        assert(frac_add(frac_sum(a), (0int, 1int)) == (frac_sum(a).0, frac_sum(a).1));
        lemma_frac_eq_symmetric(frac_add(frac_sum(a), frac_sum(b)), frac_sum(a + b));
    } else {
        let b1 = b.drop_last();
        assert(forall|i: int| 0 <= i < b1.len() ==> b1[i] == b[i]);
        lemma_frac_sum_wf(b1);
        assert((a + b).drop_last() =~= a + b1);
        assert((a + b).last() == b.last());
        lemma_frac_sum_concat(a, b1);
        // sum(a + b) == add(sum(a + b1), b.last)
        //           ~~ add(add(sum a, sum b1), b.last)   (congruence)
        //           ~~ add(sum a, add(sum b1, b.last)) == add(sum a, sum b)
        lemma_frac_add_wf(frac_sum(a), frac_sum(b1));
        lemma_frac_add_congruence(
            frac_sum(a + b1),
            b.last(),
            frac_add(frac_sum(a), frac_sum(b1)),
            b.last(),
        );
        lemma_frac_add_assoc(frac_sum(a), frac_sum(b1), b.last());
        lemma_frac_add_wf(frac_sum(a + b1), b.last());
        lemma_frac_add_wf(frac_add(frac_sum(a), frac_sum(b1)), b.last());
        lemma_frac_eq_transitive(
            frac_sum(a + b),
            frac_add(frac_add(frac_sum(a), frac_sum(b1)), b.last()),
            frac_add(frac_sum(a), frac_add(frac_sum(b1), b.last())),
        );
    }
}


/// Multiplying by a fixed fraction preserves the order of fractions.
pub proof fn lemma_frac_mul_le_right(a: (int, int), x: (int, int), y: (int, int))
    by (nonlinear_arith)
    requires
        frac_wf(a),
        frac_wf(x),
        frac_wf(y),
        frac_le(x, y),
    ensures
        frac_le(frac_mul(a, x), frac_mul(a, y)),
{
}

/// Raising a larger base to the same power gives a larger value.
pub proof fn lemma_pow_base_le(a: int, b: int, e: nat)
    requires
        0 <= a <= b,
    ensures
        vstd::arithmetic::power::pow(a, e) <= vstd::arithmetic::power::pow(b, e),
        vstd::arithmetic::power::pow(a, e) >= 0,
    decreases e,
{
    reveal(vstd::arithmetic::power::pow);
    if e > 0 {
        lemma_pow_base_le(a, b, (e - 1) as nat);
        assert(a * vstd::arithmetic::power::pow(a, (e - 1) as nat) <= b
            * vstd::arithmetic::power::pow(b, (e - 1) as nat)) by (nonlinear_arith)
            requires
                0 <= a <= b,
                0 <= vstd::arithmetic::power::pow(a, (e - 1) as nat) <= vstd::arithmetic::power::pow(
                    b,
                    (e - 1) as nat,
                );
        assert(a * vstd::arithmetic::power::pow(a, (e - 1) as nat) >= 0) by (nonlinear_arith)
            requires
                a >= 0,
                vstd::arithmetic::power::pow(a, (e - 1) as nat) >= 0;
    }
}


} // verus!
