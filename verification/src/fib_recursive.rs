//! The Fibonacci numbers by recursion.
use vstd::prelude::*;

verus! {

/// The Fibonacci number at position `n`: 0, 1, and from there on the sum of
/// the two before.
pub open spec fn fibonacci(n: nat) -> nat
    decreases n,
{
    if n < 2 {
        n
    } else {
        fibonacci((n - 2) as nat) + fibonacci((n - 1) as nat)
    }
}

/// The Fibonacci numbers do not fall.
pub proof fn lemma_fibonacci_rises(i: nat, j: nat)
    requires
        i <= j,
    ensures
        fibonacci(i) <= fibonacci(j),
    decreases j,
{
    if i < j {
        if j >= 2 {
            lemma_fibonacci_rises(i, (j - 1) as nat);
        }
    }
}

/// The Fibonacci number at position `x`, by cases.
pub fn fib(x: u64) -> (result: u64)
    requires
        fibonacci(x as nat) <= u64::MAX,
    ensures
        result == fibonacci(x as nat),
    decreases x,
{
    match x {
        0 | 1 => x,
        _ => fib(x - 2) + fib(x - 1),
    }
}

/// The Fibonacci number at position `x`, by a comparison.
pub fn fib_ifelse(x: u64) -> (result: u64)
    requires
        fibonacci(x as nat) <= u64::MAX,
    ensures
        result == fibonacci(x as nat),
    decreases x,
{
    if x < 2 {
        x
    } else {
        fib_ifelse(x - 2) + fib_ifelse(x - 1)
    }
}

} // verus!
