//! A second, recursive-only Fibonacci entry point working on machine-word
//! sizes. Calling it with a rank below one aborts, as the guard makes plain.

use vstd::prelude::*;
use crate::fibonacci::spec_fib;
use crate::fibonacci::lemma_fib_monotonic;

verus! {

/// Recursive computation of the Fibonacci member of rank `n`.
pub fn fibonacci(n: isize) -> (r: usize)
    requires
        1 <= n,
        spec_fib(n as nat) <= usize::MAX,
    ensures
        r == spec_fib(n as nat),
    decreases n,
{
    if n < 1 {
        unreached()
    } else if n <= 2 {
        1
    } else if n == 3 {
        2
    } else {
        proof {
            assert(spec_fib(n as nat) == spec_fib((n - 1) as nat) + spec_fib((n - 2) as nat));
            lemma_fib_monotonic((n - 1) as nat, n as nat);
            lemma_fib_monotonic((n - 2) as nat, n as nat);
        }
        fibonacci(n - 1) + fibonacci(n - 2)
    }
}

} // verus!
