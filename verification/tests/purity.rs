use compute_kernels::{arith_loop, fib, matmul, prime_sieve};

#[test]
fn kernels_give_the_same_result_when_called_again() {
    for n in [0u32, 1, 2, 7, 30] {
        assert_eq!(fib(n), fib(n));
        assert_eq!(prime_sieve(n), prime_sieve(n));
        assert_eq!(arith_loop(n), arith_loop(n));
        assert_eq!(matmul(n), matmul(n));
    }
}

#[test]
fn kernels_do_not_disturb_each_other() {
    let n: u32 = 24;
    let first = (fib(n), prime_sieve(n), arith_loop(n), matmul(n));
    // the other way round, with other arguments in between
    let m = matmul(n);
    let _ = arith_loop(n + 1);
    let a = arith_loop(n);
    let _ = fib(n + 5);
    let s = prime_sieve(n);
    let _ = matmul(n + 3);
    let f = fib(n);
    let _ = prime_sieve(2 * n);
    assert_eq!((f, s, a, m), first);
    assert_eq!(first, (46_368, 9, 5200, 80_786));
}
