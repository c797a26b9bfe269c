//! Fibonacci numbers: a recursive form, an iterative form, and a stepping
//! generator struct.

use vstd::prelude::*;

verus! {

/// The Fibonacci sequence as ranked here: `fib(1) == fib(2) == 1`,
/// and every later member is the sum of the previous two.
pub open spec fn spec_fib(n: nat) -> nat
    decreases n,
{
    if n <= 2 {
        1
    } else {
        spec_fib((n - 1) as nat) + spec_fib((n - 2) as nat)
    }
}

/// The sequence never decreases with the rank.
pub proof fn lemma_fib_monotonic(i: nat, j: nat)
    requires
        i <= j,
    ensures
        spec_fib(i) <= spec_fib(j),
    decreases j,
{
    if j > 2 && i < j {
        lemma_fib_monotonic(i, (j - 1) as nat);
    }
}

/// Recursive computation of the Fibonacci member of rank `n`.
pub fn fibonacci_reccursive(n: i32) -> (r: u64)
    requires
        1 <= n,
        spec_fib(n as nat) <= u64::MAX,
    ensures
        r == spec_fib(n as nat),
    decreases n,
{
    if n < 1 {
        unreached()
    } else if n <= 2 {
        1
    } else if n == 3 {
        2
    } else {
        proof {
            assert(spec_fib(n as nat) == spec_fib((n - 1) as nat) + spec_fib((n - 2) as nat));
            lemma_fib_monotonic((n - 1) as nat, n as nat);
            lemma_fib_monotonic((n - 2) as nat, n as nat);
        }
        fibonacci_reccursive(n - 1) + fibonacci_reccursive(n - 2)
    }
}

/// Iterative computation of the Fibonacci member of rank `n`.
pub fn fibonacci(n: i32) -> (r: u64)
    requires
        1 <= n,
        spec_fib(n as nat) <= u64::MAX,
    ensures
        r == spec_fib(n as nat),
{
    if n < 1 {
        unreached()
    } else if n == 1 {
        return 1;
    }
    let mut sum: u64 = 0;
    let mut last: u64 = 0;
    let mut curr: u64 = 1;
    let mut i: i32 = 1;
    while i < n
        invariant
            1 <= i <= n,
            spec_fib(n as nat) <= u64::MAX,
            curr == spec_fib(i as nat),
            last == if i == 1 { 0 } else { spec_fib((i - 1) as nat) },
            sum == if i == 1 { 0 } else { spec_fib(i as nat) },
        decreases n - i,
    {
        proof {
            lemma_fib_monotonic((i + 1) as nat, n as nat);
        }
        sum = last + curr;
        last = curr;
        curr = sum;
        i = i + 1;
    }
    sum
}

/// A generator of Fibonacci members: each `next` call advances the pair of
/// consecutive members it holds and hands the lower one out.
pub struct Fibonacci {
    pub curr: u64,
    pub next: u64,
}

impl Fibonacci {
    /// One step of the generator: the held pair `(curr, next)` becomes
    /// `(next, curr + next)` and the new `curr` is returned.
    pub fn next(&mut self) -> (r: Option<u64>)
        requires
            old(self).curr + old(self).next <= u64::MAX,
        ensures
            final(self).curr == old(self).next,
            final(self).next == old(self).curr + old(self).next,
            r == Some(final(self).curr),
    {
        let new_next = self.curr + self.next;
        self.curr = self.next;
        self.next = new_next;
        Some(self.curr)
    }
}

/// Starts a generator on the pair of the first two members.
pub fn iterative_fibonacci() -> (r: Fibonacci)
    ensures
        r.curr == 1,
        r.next == 1,
{
    Fibonacci { curr: 1, next: 1 }
}

} // verus!
