use compute_kernels::{arith_loop, MOD};

fn closed_form(count: u32) -> u32 {
    let n = count as u128;
    ((n * (n + 1) * (n + 2) / 3) % (MOD as u128)) as u32
}

#[test]
fn modulus_is_a_billion_and_seven() {
    assert_eq!(MOD, 1_000_000_007);
}

#[test]
fn arith_loop_of_zero_is_zero() {
    assert_eq!(arith_loop(0), 0);
}

#[test]
fn arith_loop_of_three_is_twenty() {
    // (1 + 1) + (4 + 2) + (9 + 3)
    assert_eq!(arith_loop(3), 20);
}

#[test]
fn arith_loop_small_counts() {
    assert_eq!(arith_loop(1), 2);
    assert_eq!(arith_loop(2), 8);
    assert_eq!(arith_loop(10), 440);
}

#[test]
fn arith_loop_reduces_modulo_the_modulus() {
    // 1000 * 1001 * 1002 / 3 = 334_334_000, still below the modulus
    assert_eq!(arith_loop(1000), 334_334_000);
    // 10^6 * (10^6 + 1) * (10^6 + 2) / 3 is far above it
    assert_eq!(arith_loop(1_000_000), 659_683);
    assert_eq!(arith_loop(50_000_000), 17_875_000);
}

#[test]
fn arith_loop_agrees_with_the_closed_form() {
    for count in 0u32..2000 {
        assert_eq!(arith_loop(count), closed_form(count));
    }
    for count in [65_535u32, 65_536, 123_456, 2_000_003] {
        assert_eq!(arith_loop(count), closed_form(count));
    }
}

#[test]
fn arith_loop_stays_below_the_modulus() {
    for count in 1800u32..2200 {
        assert!(arith_loop(count) < MOD);
    }
}

#[test]
fn arith_loop_twice_gives_the_same() {
    for count in [0u32, 1, 3, 1000, 77_777] {
        let first = arith_loop(count);
        let second = arith_loop(count);
        assert_eq!(first, second);
    }
}

#[test]
fn arith_loop_of_half_a_billion() {
    assert_eq!(arith_loop(500_000_000), 625_000_000);
}
