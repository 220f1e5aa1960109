use compute_kernels::matrix::{build_operands, fold_checksum, multiply, ENTRY_LIMIT};
use compute_kernels::{matmul, MOD};

/// The same checksum computed another way: with floating-point matrices
/// and the textbook loop order (row, column, then the index summed over).
fn float_checksum(size: u32) -> u32 {
    let n = size as usize;
    let mut a = vec![0f64; n * n];
    let mut b = vec![0f64; n * n];
    for i in 0..n {
        for j in 0..n {
            a[i * n + j] = ((i + j) % 7) as f64;
            b[i * n + j] = if i == j { 1.0 } else { ((i + 2 * j) % 5) as f64 };
        }
    }
    let mut checksum: u32 = 0;
    for i in 0..n {
        for j in 0..n {
            let mut sum = 0f64;
            for k in 0..n {
                sum += a[i * n + k] * b[k * n + j];
            }
            checksum = (checksum + (sum.floor() as u32 % MOD)) % MOD;
        }
    }
    checksum
}

#[test]
fn matmul_of_zero_is_zero() {
    assert_eq!(matmul(0), 0);
}

#[test]
fn matmul_of_one_is_zero() {
    // A = [[0]], B = [[1]], C = [[0]]
    assert_eq!(matmul(1), 0);
}

#[test]
fn matmul_of_two_is_nine() {
    // A = [[0, 1], [1, 2]], B = [[1, 2], [1, 1]], C = [[1, 1], [3, 4]]
    assert_eq!(matmul(2), 9);
}

#[test]
fn matmul_known_checksums() {
    assert_eq!(matmul(3), 96);
    assert_eq!(matmul(4), 336);
    assert_eq!(matmul(5), 700);
    assert_eq!(matmul(8), 2848);
    assert_eq!(matmul(16), 23_555);
    assert_eq!(matmul(50), 742_195);
    assert_eq!(matmul(100), 5_968_418);
}

#[test]
fn matmul_agrees_with_float_matrices_on_small_sizes() {
    for size in 1u32..=5 {
        assert_eq!(matmul(size), float_checksum(size));
    }
}

#[test]
fn matmul_agrees_with_float_matrices_on_larger_sizes() {
    for size in 6u32..=40 {
        assert_eq!(matmul(size), float_checksum(size));
    }
}

#[test]
fn matmul_stays_below_the_modulus() {
    for size in 0u32..30 {
        assert!(matmul(size) < MOD);
    }
}

#[test]
fn build_operands_of_side_three() {
    let (a, b) = build_operands(3);
    assert_eq!(a, vec![0, 1, 2, 1, 2, 3, 2, 3, 4]);
    assert_eq!(b, vec![1, 2, 4, 1, 1, 0, 2, 4, 1]);
}

#[test]
fn build_operands_of_side_zero_is_empty() {
    let (a, b) = build_operands(0);
    assert!(a.is_empty());
    assert!(b.is_empty());
}

#[test]
fn build_operands_follow_the_index_formulas() {
    let n: usize = 12;
    let (a, b) = build_operands(n);
    assert_eq!(a.len(), n * n);
    assert_eq!(b.len(), n * n);
    for i in 0..n {
        for j in 0..n {
            assert_eq!(a[i * n + j], ((i + j) % 7) as u64);
            let want = if i == j { 1 } else { ((i + 2 * j) % 5) as u64 };
            assert_eq!(b[i * n + j], want);
        }
    }
}

#[test]
fn multiply_of_side_three() {
    let (a, b) = build_operands(3);
    assert_eq!(multiply(&a, &b, 3), vec![5, 9, 2, 9, 16, 7, 13, 23, 12]);
}

#[test]
fn multiply_is_not_commutative() {
    let a: Vec<u64> = vec![1, 2, 3, 4];
    let b: Vec<u64> = vec![0, 1, 1, 0];
    assert_eq!(multiply(&a, &b, 2), vec![2, 1, 4, 3]);
    assert_eq!(multiply(&b, &a, 2), vec![3, 4, 1, 2]);
}

#[test]
fn multiply_by_the_identity() {
    let a: Vec<u64> = vec![7, 0, 65_535, 3, 9, 1, 12, 400, 5];
    let id: Vec<u64> = vec![1, 0, 0, 0, 1, 0, 0, 0, 1];
    assert_eq!(multiply(&a, &id, 3), a);
    assert_eq!(multiply(&id, &a, 3), a);
}

#[test]
fn multiply_at_the_entry_limit() {
    let a: Vec<u64> = vec![ENTRY_LIMIT; 4];
    let c = multiply(&a, &a, 2);
    assert_eq!(c, vec![2 * 65_535 * 65_535; 4]);
}

#[test]
fn multiply_of_side_zero_is_empty() {
    let empty: Vec<u64> = Vec::new();
    assert!(multiply(&empty, &empty, 0).is_empty());
}

#[test]
fn fold_checksum_of_nothing_is_zero() {
    assert_eq!(fold_checksum(&Vec::new()), 0);
}

#[test]
fn fold_checksum_adds_entries() {
    assert_eq!(fold_checksum(&vec![1, 1, 3, 4]), 9);
}

#[test]
fn fold_checksum_reduces_each_entry_and_the_sum() {
    assert_eq!(fold_checksum(&vec![1_000_000_007]), 0);
    assert_eq!(fold_checksum(&vec![1_000_000_012]), 5);
    assert_eq!(fold_checksum(&vec![1_000_000_006, 1_000_000_006]), 1_000_000_005);
}

#[test]
fn fold_checksum_narrows_entries_to_32_bits() {
    // 2^32 - 1 = 4 * (10^9 + 7) + 294_967_267
    assert_eq!(fold_checksum(&vec![4_294_967_295]), 294_967_267);
    assert_eq!(fold_checksum(&vec![4_294_967_296]), 294_967_267);
    assert_eq!(fold_checksum(&vec![u64::MAX]), 294_967_267);
    assert_eq!(fold_checksum(&vec![u64::MAX, 1]), 294_967_268);
}

#[test]
fn matmul_of_larger_sides() {
    assert_eq!(matmul(256), 100_466_700);
    assert_eq!(matmul(300), 161_731_190);
}

#[test]
fn matmul_whose_entries_sum_beyond_the_modulus() {
    // the entries add up to 5_997_003_990 = 5 * (10^9 + 7) + 997_003_955
    assert_eq!(matmul(1000), 997_003_955);
}
