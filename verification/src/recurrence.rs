//! The Fibonacci sequence under 32-bit wraparound.

use vstd::arithmetic::div_mod::lemma_add_mod_noop;
use vstd::arithmetic::div_mod::lemma_small_mod;
use vstd::prelude::*;

verus! {

/// Number of values a 32-bit word can hold; additions wrap around modulo
/// this.
pub open spec fn word_modulus() -> nat {
    0x1_0000_0000
}

/// The Fibonacci numbers over the naturals: 0, 1, 1, 2, 3, 5, ...
pub open spec fn fibonacci(n: nat) -> nat
    decreases n,
{
    if n <= 1 {
        n
    } else {
        fibonacci((n - 1) as nat) + fibonacci((n - 2) as nat)
    }
}

/// The `n`-th term of the sequence as a 32-bit word holds it: the
/// Fibonacci number reduced modulo 2^32.
pub open spec fn wrapped_term(n: nat) -> nat {
    fibonacci(n) % word_modulus()
}

/// The first two terms are their own index.
pub proof fn lemma_wrapped_term_base(n: nat)
    requires
        n <= 1,
    ensures
        wrapped_term(n) == n,
{
    lemma_small_mod(n, word_modulus());
}

/// From the third term on, each term is the sum of the two before it,
/// taken modulo 2^32. The equality is one of wrapped values: the sum
/// itself may exceed a 32-bit word.
pub proof fn lemma_wrapped_term_step(n: nat)
    requires
        n >= 2,
    ensures
        wrapped_term(n) == (wrapped_term((n - 1) as nat) + wrapped_term((n - 2) as nat))
            % word_modulus(),
{
    lemma_add_mod_noop(
        fibonacci((n - 1) as nat) as int,
        fibonacci((n - 2) as nat) as int,
        word_modulus() as int,
    );
}

/// What `fib` ensures admits one term for each index: two calls on the
/// same index return the same term, whatever ran in between.
pub proof fn lemma_fib_deterministic(n: u32, first: u32, second: u32)
    requires
        first == wrapped_term(n as nat),
        second == wrapped_term(n as nat),
    ensures
        first == second,
{
}

/// Returns the `n`-th term of the sequence 0, 1, 1, 2, 3, 5, ... in which
/// every addition wraps around at 32 bits. Keeps only the last two terms.
pub fn fib(n: u32) -> (term: u32)
    ensures
        term == wrapped_term(n as nat),
        n <= 1 ==> term == n,
        n >= 2 ==> term == (wrapped_term((n - 1) as nat) + wrapped_term((n - 2) as nat))
            % word_modulus(),
{
    if n <= 1 {
        proof {
            lemma_wrapped_term_base(n as nat);
        }
        return n;
    }
    let mut a: u32 = 0;
    let mut b: u32 = 1;
    let mut k: u32 = 1;
    proof {
        lemma_wrapped_term_base(0);
        lemma_wrapped_term_base(1);
    }
    while k < n
        invariant
            1 <= k <= n,
            a == wrapped_term((k - 1) as nat),
            b == wrapped_term(k as nat),
        decreases n - k,
    {
        let t: u32 = a.wrapping_add(b);
        proof {
            lemma_wrapped_term_step((k + 1) as nat);
        }
        a = b;
        b = t;
        k = k + 1;
    }
    proof {
        lemma_wrapped_term_step(n as nat);
    }
    b
}

} // verus!
