//! Small numeric helpers.

use vstd::prelude::*;

verus! {

/// The factorial, defined as usual: `n! = n * (n - 1)!` and `0! = 1`.
pub open spec fn fact(n: int) -> int
    decreases n,
{
    if n <= 1 {
        1
    } else {
        n * fact(n - 1)
    }
}

/// The factorial is positive.
proof fn lemma_fact_pos(n: int)
    ensures
        fact(n) >= 1,
    decreases n,
{
    if n > 1 {
        lemma_fact_pos(n - 1);
        assert(n * fact(n - 1) >= 1) by (nonlinear_arith)
            requires
                n >= 2,
                fact(n - 1) >= 1;
    }
}

/// The factorial grows monotonically.
proof fn lemma_fact_monotone(a: int, b: int)
    requires
        0 <= a <= b,
    ensures
        1 <= fact(a) <= fact(b),
    decreases b,
{
    lemma_fact_pos(a);
    if a < b {
        lemma_fact_monotone(a, b - 1);
        assert(fact(b) == b * fact(b - 1));
        assert(fact(b - 1) <= b * fact(b - 1)) by (nonlinear_arith)
            requires
                b >= 1,
                fact(b - 1) >= 1;
    }
}

/// The largest factorial that fits in a 64-bit word.
proof fn lemma_fact_20()
    ensures
        fact(20) == 2432902008176640000,
{
    reveal_with_fuel(fact, 21);
}

/// Returns the factorial of the number.
///
/// The result of anything beyond 20 no longer fits in 64 bits.
pub fn factorial(n: u64) -> (r: u64)
    requires
        n <= 20,
    ensures
        r as int == fact(n as int),
    decreases n,
{
    proof {
        lemma_fact_20();
        lemma_fact_monotone(n as int, 20);
        reveal_with_fuel(fact, 21);
    }
    match n {
        0 | 1 => 1,
        2 => 2,
        3 => 6,
        4 => 24,
        5 => 120,
        6 => 720,
        7 => 5040,
        8 => 40320,
        9 => 362880,
        10 => 3628800,
        11 => 39916800,
        12 => 479001600,
        13 => 6227020800,
        14 => 87178291200,
        15 => 1307674368000,
        16 => 20922789888000,
        17 => 355687428096000,
        18 => 6402373705728000,
        19 => 121645100408832000,
        20 => 2432902008176640000,
        _ => {
            let prev = factorial(n - 1);
            proof {
                lemma_fact_monotone(n as int, 20);
            }
            n * prev
        },
    }
}

} // verus!
