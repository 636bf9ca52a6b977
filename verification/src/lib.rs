//! Classic search and constraint-satisfaction algorithms with machine-checked contracts.
pub mod csp;
pub mod fib_iterative;
pub mod fib_memoized;
pub mod fib_recursive;
pub mod gene;
pub mod generic_search;
pub mod graph;
pub mod hanoi;
pub mod map_colouring;
pub mod maze;
pub mod missionaries_and_cannibals;
pub mod queens;
pub mod unbreakable_encryption;
pub mod word_search;
