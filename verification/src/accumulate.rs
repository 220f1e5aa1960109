//! A running sum of i^2 + i, kept below the modulus after every step.

use crate::MOD;
use vstd::arithmetic::div_mod::lemma_add_mod_noop;
use vstd::arithmetic::div_mod::lemma_mod_twice;
use vstd::prelude::*;

verus! {

/// What index `i` adds to the sum: i^2 + i.
pub open spec fn step_value(i: nat) -> nat {
    i * i + i
}

/// The sum of i^2 + i over i in [1, count], over the naturals.
pub open spec fn step_sum(count: nat) -> nat
    decreases count,
{
    if count == 0 {
        0
    } else {
        step_sum((count - 1) as nat) + step_value(count)
    }
}

/// Three times the sum is the product of three consecutive numbers:
/// the sum of i^2 + i over [1, count] is count (count + 1) (count + 2) / 3.
pub proof fn lemma_step_sum_closed_form(count: nat)
    ensures
        3 * step_sum(count) == count * (count + 1) * (count + 2),
    decreases count,
{
    if count == 0 {
        assert(count * (count + 1) * (count + 2) == 0) by (nonlinear_arith)
            requires
                count == 0,
        ;
    } else {
        let below: nat = step_sum((count - 1) as nat);
        lemma_step_sum_closed_form((count - 1) as nat);
        assert(3 * (below + (count * count + count)) == count * (count + 1) * (count + 2))
            by (nonlinear_arith)
            requires
                count > 0,
                3 * below == (count - 1) as nat * ((count - 1) as nat + 1) * ((count - 1) as nat
                    + 2),
        ;
    }
}

/// What `arith_loop` ensures admits one result for each count: two calls
/// on the same count return the same result, whatever ran in between.
pub proof fn lemma_arith_loop_deterministic(iterations: u32, first: u32, second: u32)
    requires
        first == step_sum(iterations as nat) % (MOD as nat),
        second == step_sum(iterations as nat) % (MOD as nat),
    ensures
        first == second,
{
}

/// Returns the sum of i^2 + i over i in [1, iterations], modulo `MOD`.
/// The running sum is carried in 64 bits and reduced after every addition.
pub fn arith_loop(iterations: u32) -> (acc: u32)
    ensures
        acc == step_sum(iterations as nat) % (MOD as nat),
        acc < MOD,
        iterations == 0 ==> acc == 0,
{
    let last: u64 = iterations as u64;
    let modulus: u64 = MOD as u64;
    let mut acc: u64 = 0;
    let mut i: u64 = 0;
    while i < last
        invariant
            i <= last <= u32::MAX,
            modulus == MOD,
            acc == step_sum(i as nat) % (MOD as nat),
        decreases last - i,
    {
        i += 1;
        proof {
            assert(i * i + i <= u64::MAX) by (nonlinear_arith)
                requires
                    i <= 0xffff_ffff,
            ;
            lemma_add_mod_noop(
                step_sum((i - 1) as nat) as int,
                step_value(i as nat) as int,
                MOD as int,
            );
            lemma_mod_twice(step_value(i as nat) as int, MOD as int);
        }
        acc = (acc + ((i * i + i) % modulus)) % modulus;
    }
    acc as u32
}

} // verus!
