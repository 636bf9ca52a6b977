//! The Fibonacci numbers by a loop.
use crate::fib_recursive::{fibonacci, lemma_fibonacci_rises};
use vstd::prelude::*;

verus! {

/// The Fibonacci number at position `x`, counted up from the first two.
pub fn fib(x: u64) -> (result: u64)
    requires
        fibonacci(x as nat + 1) <= u64::MAX,
    ensures
        result == fibonacci(x as nat),
{
    let mut last: u64 = 0;
    let mut next: u64 = 1;
    let mut i: u64 = 0;
    while i < x
        invariant
            0 <= i <= x,
            last == fibonacci(i as nat),
            next == fibonacci(i as nat + 1),
            fibonacci(x as nat + 1) <= u64::MAX,
        decreases x - i,
    {
        proof {
            lemma_fibonacci_rises(i as nat + 2, x as nat + 1);
        }
        let old_last = last;
        last = next;
        next = old_last + next;
        i += 1;
    }
    last
}

} // verus!
