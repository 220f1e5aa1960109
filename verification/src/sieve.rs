//! Counting primes with the sieve of Eratosthenes.

use vstd::arithmetic::div_mod::lemma_fundamental_div_mod;
use vstd::arithmetic::div_mod::lemma_fundamental_div_mod_converse;
use vstd::arithmetic::div_mod::lemma_mod_multiples_basic;
use vstd::prelude::*;

verus! {

/// Whether the positive integer `d` divides `k`.
pub open spec fn divides(d: int, k: int) -> bool {
    d > 0 && k % d == 0
}

/// Whether `k` is prime: at least 2, and divisible by nothing strictly
/// between 1 and itself.
pub open spec fn is_prime(k: int) -> bool {
    k >= 2 && forall|d: int| 1 < d < k ==> !divides(d, k)
}

/// The number of primes in [2, n].
pub open spec fn prime_count(n: nat) -> nat
    decreases n,
{
    if n < 2 {
        0
    } else {
        prime_count((n - 1) as nat) + if is_prime(n as int) {
            1nat
        } else {
            0nat
        }
    }
}

/// The set of primes in [2, n].
pub open spec fn primes_up_to(n: nat) -> Set<int> {
    Set::new(|k: int| 2 <= k <= n && is_prime(k))
}

/// `prime_count` is the size of the set of primes up to `n`.
pub proof fn lemma_prime_count_is_cardinality(n: nat)
    ensures
        primes_up_to(n).finite(),
        primes_up_to(n).len() == prime_count(n),
    decreases n,
{
    if n < 2 {
        assert(primes_up_to(n) =~= Set::<int>::empty());
    } else {
        let below: Set<int> = primes_up_to((n - 1) as nat);
        lemma_prime_count_is_cardinality((n - 1) as nat);
        if is_prime(n as int) {
            assert(primes_up_to(n) =~= below.insert(n as int));
        } else {
            assert(primes_up_to(n) =~= below);
        }
    }
}

/// Divisibility is transitive.
proof fn lemma_divides_transitive(d: int, p: int, k: int)
    requires
        divides(d, p),
        divides(p, k),
    ensures
        divides(d, k),
{
    lemma_fundamental_div_mod(p, d);
    lemma_fundamental_div_mod(k, p);
    let b: int = p / d;
    let a: int = k / p;
    assert(k == (b * a) * d) by (nonlinear_arith)
        requires
            p == d * b,
            k == p * a,
    ;
    lemma_mod_multiples_basic(b * a, d);
}

/// Between a multiple of `p` and the next one lies no other, and the next
/// one is `p` further on.
proof fn lemma_next_multiple(p: int, j: int, k: int)
    requires
        divides(p, j),
        j <= k < j + p,
    ensures
        divides(p, k) <==> k == j,
        divides(p, j + p),
{
    lemma_fundamental_div_mod(j, p);
    let q: int = j / p;
    assert(k == q * p + (k - j) && j + p == (q + 1) * p + 0) by (nonlinear_arith)
        requires
            j == p * q,
    ;
    lemma_fundamental_div_mod_converse(k, p, q, k - j);
    lemma_fundamental_div_mod_converse(j + p, p, q + 1, 0);
}

/// Whether `k` has a divisor `d` with 2 <= d < p whose square does not
/// exceed `k`. These are the numbers that the sieve has marked once every
/// candidate below `p` has been handled.
spec fn struck(k: int, p: int) -> bool {
    exists|d: int| 2 <= d < p && d * d <= k && #[trigger] divides(d, k)
}

/// Handling candidate `p` marks, beyond what was marked, the multiples of
/// `p` from its square on.
proof fn lemma_struck_extend(k: int, p: int)
    requires
        2 <= p,
    ensures
        struck(k, p + 1) <==> (struck(k, p) || (divides(p, k) && p * p <= k)),
{
    if struck(k, p) {
        let d: int = choose|d: int| 2 <= d < p && d * d <= k && #[trigger] divides(d, k);
        assert(2 <= d < p + 1 && d * d <= k && divides(d, k));
    }
    if divides(p, k) && p * p <= k {
        assert(2 <= p < p + 1 && p * p <= k && divides(p, k));
    }
    if struck(k, p + 1) {
        let d: int = choose|d: int| 2 <= d < p + 1 && d * d <= k && #[trigger] divides(d, k);
        if d < p {
            assert(2 <= d < p && d * d <= k && divides(d, k));
        }
    }
}

/// A candidate that is itself marked has nothing left to mark: each of its
/// multiples from its square on is already marked.
proof fn lemma_struck_skip(k: int, p: int)
    requires
        2 <= p,
        struck(p, p),
    ensures
        struck(k, p + 1) <==> struck(k, p),
{
    lemma_struck_extend(k, p);
    if divides(p, k) && p * p <= k {
        let d: int = choose|d: int| 2 <= d < p && d * d <= p && #[trigger] divides(d, p);
        lemma_divides_transitive(d, p, k);
        assert(p <= p * p) by (nonlinear_arith)
            requires
                2 <= p,
        ;
        assert(2 <= d < p && d * d <= k && divides(d, k));
    }
}

/// Once the square of `p` exceeds `k`, the marked numbers are exactly the
/// composite ones.
proof fn lemma_struck_iff_composite(k: int, p: int)
    requires
        2 <= p,
        2 <= k < p * p,
    ensures
        struck(k, p) <==> !is_prime(k),
{
    if struck(k, p) {
        let d: int = choose|d: int| 2 <= d < p && d * d <= k && #[trigger] divides(d, k);
        assert(d < d * d) by (nonlinear_arith)
            requires
                2 <= d,
        ;
        assert(1 < d < k && divides(d, k));
    }
    if !is_prime(k) {
        let d: int = choose|d: int| 1 < d < k && divides(d, k);
        let m: int = k / d;
        lemma_fundamental_div_mod(k, d);
        assert(2 <= m) by (nonlinear_arith)
            requires
                k == d * m,
                1 < d < k,
        ;
        lemma_mod_multiples_basic(d, m);
        let e: int = if d <= m {
            d
        } else {
            m
        };
        assert(e * e <= k && e < p) by (nonlinear_arith)
            requires
                k == d * m,
                k < p * p,
                2 <= d,
                2 <= m,
                2 <= p,
                e == d || e == m,
                e <= d,
                e <= m,
        ;
        assert(divides(e, k));
        assert(2 <= e < p && e * e <= k && divides(e, k));
    }
}

/// Whether `marks` is what the sieve holds over [0, n] once every
/// candidate below `p` has been handled: 0, 1 and the numbers with a divisor
/// below `p` whose square they reach are marked, and nothing else.
spec fn settled(marks: Seq<bool>, n: int, p: int) -> bool {
    forall|k: int| 0 <= k <= n ==> #[trigger] marks[k] == (k < 2 || struck(k, p))
}

/// Whether `marks` is what the sieve holds over [0, n] in the middle of
/// handling candidate `p`: beyond what was marked before, the multiples of
/// `p` from its square up to, not including, `j`.
spec fn in_pass(marks: Seq<bool>, n: int, p: int, j: int) -> bool {
    forall|k: int|
        0 <= k <= n ==> #[trigger] marks[k] == (k < 2 || struck(k, p) || (divides(p, k) && p * p
            <= k < j))
}

/// A pass starts at the square of its candidate with nothing new marked.
proof fn lemma_pass_begins(marks: Seq<bool>, n: int, p: int)
    requires
        2 <= p,
        settled(marks, n, p),
    ensures
        in_pass(marks, n, p, p * p),
        divides(p, p * p),
{
    lemma_mod_multiples_basic(p, p);
}

/// Marking the multiple `j` takes the pass on to the next multiple.
proof fn lemma_pass_step(marks: Seq<bool>, n: int, p: int, j: int)
    requires
        2 <= p,
        p * p <= j <= n < marks.len(),
        divides(p, j),
        in_pass(marks, n, p, j),
    ensures
        in_pass(marks.update(j, true), n, p, j + p),
        divides(p, j + p),
{
    let after: Seq<bool> = marks.update(j, true);
    assert forall|k: int| 0 <= k <= n implies #[trigger] after[k] == (k < 2 || struck(k, p) || (
    divides(p, k) && p * p <= k < j + p)) by {
        assert(marks[k] == (k < 2 || struck(k, p) || (divides(p, k) && p * p <= k < j)));
        if j <= k < j + p {
            lemma_next_multiple(p, j, k);
        }
    }
    lemma_next_multiple(p, j, j);
}

/// A pass that has gone beyond `n` has handled its candidate.
proof fn lemma_pass_ends(marks: Seq<bool>, n: int, p: int, j: int)
    requires
        2 <= p,
        n < j,
        in_pass(marks, n, p, j),
    ensures
        settled(marks, n, p + 1),
{
    assert forall|k: int| 0 <= k <= n implies #[trigger] marks[k] == (k < 2 || struck(k, p + 1)) by {
        lemma_struck_extend(k, p);
    }
}

/// A candidate that is itself marked is handled without a pass.
proof fn lemma_pass_skipped(marks: Seq<bool>, n: int, p: int)
    requires
        2 <= p <= n,
        marks[p],
        settled(marks, n, p),
    ensures
        settled(marks, n, p + 1),
{
    assert forall|k: int| 0 <= k <= n implies #[trigger] marks[k] == (k < 2 || struck(k, p + 1)) by {
        lemma_struck_skip(k, p);
    }
}

/// The number of indices in [2, hi] that `marks` leaves unmarked.
spec fn unmarked_count(marks: Seq<bool>, hi: int) -> int
    decreases hi,
{
    if hi < 2 {
        0
    } else {
        unmarked_count(marks, hi - 1) + if marks[hi] {
            0int
        } else {
            1int
        }
    }
}

/// With nothing marked from 2 on, every index in [2, hi] counts.
proof fn lemma_unmarked_initial(marks: Seq<bool>, hi: int)
    requires
        hi < marks.len(),
        forall|k: int| 2 <= k <= hi ==> !marks[k],
    ensures
        unmarked_count(marks, hi) == if hi < 2 {
            0
        } else {
            hi - 1
        },
    decreases hi,
{
    if hi >= 2 {
        lemma_unmarked_initial(marks, hi - 1);
    }
}

/// Marking one unmarked index in [2, hi] lowers the count by one, and the
/// count was not zero.
proof fn lemma_unmarked_strike(marks: Seq<bool>, j: int, hi: int)
    requires
        2 <= j < marks.len(),
        hi < marks.len(),
        !marks[j],
    ensures
        unmarked_count(marks.update(j, true), hi) == unmarked_count(marks, hi) - if j <= hi {
            1int
        } else {
            0int
        },
        unmarked_count(marks.update(j, true), hi) >= 0,
    decreases hi,
{
    if hi >= 2 {
        lemma_unmarked_strike(marks, j, hi - 1);
    }
}

/// Once the square of the next candidate exceeds `n`, the unmarked indices
/// in [2, n] are the primes, and their number is the number of primes.
proof fn lemma_unmarked_are_primes(marks: Seq<bool>, n: int, p: int, hi: int)
    requires
        2 <= p,
        n < p * p,
        hi <= n < marks.len(),
        settled(marks, n, p),
    ensures
        unmarked_count(marks, hi) == prime_count(
            if hi < 0 {
                0
            } else {
                hi as nat
            },
        ),
    decreases hi,
{
    if hi >= 2 {
        lemma_unmarked_are_primes(marks, n, p, hi - 1);
        lemma_struck_iff_composite(hi, p);
    }
}

/// What `prime_sieve` ensures admits one count for each bound: two calls
/// on the same bound return the same count, whatever ran in between.
pub proof fn lemma_prime_sieve_deterministic(n: u32, first: u32, second: u32)
    requires
        first == prime_count(n as nat),
        second == prime_count(n as nat),
    ensures
        first == second,
{
}

/// Returns the number of primes in [2, n].
///
/// Marks composites in an array of `n + 1` flags, whose length has to fit
/// in `usize`. For each candidate `p` from 2 while `p * p <= n`, an
/// unmarked `p` has its multiples marked from `p * p` on. The count starts
/// at `n - 1` and drops by one each time an unmarked index is marked.
pub fn prime_sieve(n: u32) -> (count: u32)
    requires
        n < usize::MAX,
    ensures
        count == prime_count(n as nat),
        count == primes_up_to(n as nat).len(),
        n < 2 ==> count == 0,
{
    proof {
        lemma_prime_count_is_cardinality(n as nat);
    }
    if n < 2 {
        return 0;
    }
    let bound: u64 = n as u64;
    let mut sieve: Vec<bool> = vec![false; n as usize + 1];
    sieve.set(0, true);
    sieve.set(1, true);
    let mut count: u32 = n - 1;
    let mut p: u64 = 2;
    proof {
        lemma_unmarked_initial(sieve@, n as int);
        assert(settled(sieve@, n as int, 2));
    }
    while p * p <= bound
        invariant
            2 <= n < usize::MAX,
            bound == n,
            2 <= p,
            p * p <= 0x1_0000_0000,
            sieve.len() == n + 1,
            settled(sieve@, n as int, p as int),
            count == unmarked_count(sieve@, n as int),
        decreases 0x1_0000_0000 - p,
    {
        proof {
            assert(p < 0x1_0000 && p <= p * p && (p + 1) * (p + 1) <= 0x1_0000_0000)
                by (nonlinear_arith)
                requires
                    2 <= p,
                    p * p < 0x1_0000_0000,
            ;
        }
        if !sieve[p as usize] {
            let mut j: u64 = p * p;
            proof {
                lemma_pass_begins(sieve@, n as int, p as int);
            }
            while j <= bound
                invariant
                    2 <= n < usize::MAX,
                    bound == n,
                    2 <= p < 0x1_0000,
                    p * p <= j <= bound + p,
                    divides(p as int, j as int),
                    sieve.len() == n + 1,
                    in_pass(sieve@, n as int, p as int, j as int),
                    count == unmarked_count(sieve@, n as int),
                decreases bound + p - j,
            {
                proof {
                    lemma_pass_step(sieve@, n as int, p as int, j as int);
                }
                if !sieve[j as usize] {
                    proof {
                        lemma_unmarked_strike(sieve@, j as int, n as int);
                    }
                    sieve.set(j as usize, true);
                    count -= 1;
                } else {
                    assert(sieve@ =~= sieve@.update(j as int, true));
                }
                j += p;
            }
            proof {
                lemma_pass_ends(sieve@, n as int, p as int, j as int);
            }
        } else {
            proof {
                lemma_pass_skipped(sieve@, n as int, p as int);
            }
        }
        p += 1;
    }
    proof {
        lemma_unmarked_are_primes(sieve@, n as int, p as int, n as int);
    }
    count
}

} // verus!
