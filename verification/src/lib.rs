//! Four small numeric kernels. Each takes one unsigned 32-bit argument,
//! returns one unsigned 32-bit result, and touches nothing but its own
//! buffers. Every kernel is verified against a mathematical statement of
//! what it returns.
//!
//! * [`fib`]: a term of the Fibonacci sequence under 32-bit wraparound.
//! * [`prime_sieve`]: the number of primes up to a bound.
//! * [`arith_loop`]: a sum of i^2 + i modulo [`MOD`].
//! * [`matmul`]: the checksum of a product of two square matrices.
//!
//! The two kernels that allocate, `prime_sieve` and `matmul`, ask that the
//! length of their buffers fit in `usize`. On a 64-bit target that holds of
//! every argument.

use vstd::prelude::*;

pub mod accumulate;
pub mod matrix;
pub mod recurrence;
pub mod sieve;

pub use accumulate::arith_loop;
pub use matrix::matmul;
pub use recurrence::fib;
pub use sieve::prime_sieve;

verus! {

/// The modulus of the accumulating kernels: 10^9 + 7.
pub const MOD: u32 = 1_000_000_007;

} // verus!
