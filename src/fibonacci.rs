//! Fibonacci numbers by repeated steps of the pair `[f(k - 1), f(k)]`.

use vstd::prelude::*;

verus! {

/// The Fibonacci sequence: `fib(0) = 0`, `fib(1) = 1`.
pub open spec fn fib(n: nat) -> nat
    decreases n,
{
    if n == 0 {
        0
    } else if n == 1 {
        1
    } else {
        fib((n - 2) as nat) + fib((n - 1) as nat)
    }
}

proof fn lemma_fib_monotone(a: nat, b: nat)
    requires
        a <= b,
    ensures
        fib(a) <= fib(b),
    decreases b,
{
    if a < b {
        lemma_fib_monotone(a, (b - 1) as nat);
        if b >= 2 {
            assert(fib(b) == fib((b - 2) as nat) + fib((b - 1) as nat));
        }
    }
}

/// The `n`-th Fibonacci number, computed by repeating
/// `[f(k - 1), f(k)] * [[0, 1], [1, 1]]`.
pub fn fibonacci(n: usize) -> (r: usize)
    requires
        fib(n as nat) <= usize::MAX,
    ensures
        r == fib(n as nat),
{
    let mut state: [usize; 2] = [0, 1];
    if n <= 1 {
        return state[n];
    }
    let mut k: usize = 1;
    while k < n
        invariant
            1 <= k <= n,
            fib(n as nat) <= usize::MAX,
            state[0] == fib((k - 1) as nat),
            state[1] == fib(k as nat),
        decreases n - k,
    {
        proof {
            lemma_fib_monotone((k + 1) as nat, n as nat);
            assert(fib((k + 1) as nat) == fib((k - 1) as nat) + fib(k as nat));
        }
        state = [state[1], state[0] + state[1]];
        k += 1;
    }
    state[1]
}

} // verus!
