//! The Fibonacci numbers by recursion that remembers what it has computed.
use crate::fib_recursive::fibonacci;
use std::collections::HashMap;
use vstd::prelude::*;
use vstd::std_specs::hash::*;

verus! {

broadcast use vstd::std_specs::hash::group_hash_axioms;

/// Every entry of the cache holds the Fibonacci number of its key.
pub open spec fn remembers_fibonacci(cache: Map<u64, u64>) -> bool {
    forall|k: u64| #[trigger] cache.contains_key(k) ==> cache[k] == fibonacci(k as nat)
}

/// The Fibonacci number at position `x`, taken from `cache` where it is
/// there, and put there where it was not.
pub fn fib_memo(x: u64, cache: &mut HashMap<u64, u64>) -> (result: u64)
    requires
        fibonacci(x as nat) <= u64::MAX,
        remembers_fibonacci(old(cache)@),
    ensures
        result == fibonacci(x as nat),
        remembers_fibonacci(final(cache)@),
        final(cache)@.contains_key(x),
        forall|k: u64| old(cache)@.contains_key(k) ==> #[trigger] final(cache)@.contains_key(k),
    decreases x,
{
    let possible_cache_entry = match cache.get(&x) {
        Some(entry) => Some(*entry),
        None => None,
    };
    match possible_cache_entry {
        Some(result) => result,
        None => {
            let result = if x < 2 {
                x
            } else {
                let before = fib_memo(x - 1, cache);
                let two_before = fib_memo(x - 2, cache);
                before + two_before
            };
            cache.insert(x, result);
            result
        },
    }
}

} // verus!
