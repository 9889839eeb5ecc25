//! Factorials, computed by recursion and by a loop.

use vstd::prelude::*;

verus! {

/// `n!`, taken as 1 for every `n` up to 1.
pub open spec fn factorial(n: int) -> int
    decreases n,
{
    if n <= 1 {
        1
    } else {
        n * factorial(n - 1)
    }
}

/// `n!` is 1 up to `n = 1`, and `n` times `(n - 1)!` above.
pub proof fn lemma_factorial_recurrence(n: int)
    ensures
        n <= 1 ==> factorial(n) == 1,
        n > 1 ==> factorial(n) == n * factorial(n - 1),
{
}

/// Factorials are positive and grow with their argument.
pub proof fn lemma_factorial_grows(i: int, j: int)
    requires
        i <= j,
    ensures
        1 <= factorial(i) <= factorial(j),
    decreases j - i,
{
    if i < j {
        lemma_factorial_grows(i, j - 1);
        if j > 1 {
            assert(factorial(j - 1) <= j * factorial(j - 1)) by (nonlinear_arith)
                requires
                    j > 1,
                    factorial(j - 1) >= 1,
            ;
        }
    } else {
        lemma_factorial_positive(i);
    }
}

proof fn lemma_factorial_positive(n: int)
    ensures
        factorial(n) >= 1,
    decreases n,
{
    if n > 1 {
        lemma_factorial_positive(n - 1);
        assert(n * factorial(n - 1) >= 1) by (nonlinear_arith)
            requires
                n > 1,
                factorial(n - 1) >= 1,
        ;
    }
}

/// 20 is the largest argument whose factorial fits in an `i64`.
proof fn lemma_factorial_fits(n: int)
    requires
        factorial(n) <= i64::MAX,
    ensures
        n <= 20,
{
    reveal_with_fuel(factorial, 22);
    assert(factorial(21) == 51090942171709440000);
    if n > 20 {
        lemma_factorial_grows(21, n);
    }
}

/// `n!` by recursion.
pub fn recursive_factorial(n: i64) -> (r: i64)
    requires
        factorial(n as int) <= i64::MAX,
    ensures
        r == factorial(n as int),
    decreases n,
{
    if n <= 1 {
        1
    } else {
        proof {
            lemma_factorial_grows(n - 1, n as int);
        }
        n * recursive_factorial(n - 1)
    }
}

/// `n!` by a loop that multiplies 1, 2, ..., n.
pub fn iterative_factorial(n: i64) -> (r: i64)
    requires
        factorial(n as int) <= i64::MAX,
    ensures
        r == factorial(n as int),
{
    proof {
        lemma_factorial_fits(n as int);
    }
    let mut i: i64 = 1;
    let mut result: i64 = 1;
    while i <= n
        invariant
            1 <= i,
            n <= 20,
            n >= 1 ==> i <= n + 1,
            n < 1 ==> i == 1,
            result == factorial(i - 1),
            factorial(n as int) <= i64::MAX,
        decreases n + 1 - i,
    {
        proof {
            lemma_factorial_grows(i as int, n as int);
            assert(result * i == factorial(i as int)) by (nonlinear_arith)
                requires
                    result == factorial(i - 1),
                    i >= 1,
                    factorial(i as int) == if i <= 1 { 1 } else { i * factorial(i - 1) },
                    i <= 1 ==> factorial(i - 1) == 1,
            ;
        }
        result = result * i;
        i = i + 1;
    }
    result
}

} // verus!
