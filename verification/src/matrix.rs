//! Dense square matrices in row-major order: two operands given by index
//! formulas, their product, and a checksum folded from the product.
//!
//! The entries are small non-negative integers. They are held in 64-bit
//! integers, in which every product and every sum that occurs is exact.

use crate::MOD;
use vstd::arithmetic::div_mod::lemma_add_mod_noop;
use vstd::arithmetic::div_mod::lemma_div_pos_is_pos;
use vstd::arithmetic::div_mod::lemma_fundamental_div_mod;
use vstd::arithmetic::div_mod::lemma_fundamental_div_mod_converse;
use vstd::arithmetic::div_mod::lemma_mod_bound;
use vstd::arithmetic::div_mod::lemma_mod_twice;
use vstd::arithmetic::div_mod::lemma_multiply_divide_lt;
use vstd::prelude::*;

verus! {

/// Row-major position of entry (`i`, `j`) in a matrix of side `n`.
pub open spec fn flat(n: int, i: int, j: int) -> int {
    i * n + j
}

/// The left operand of side `n`: entry (i, j) is (i + j) mod 7.
pub open spec fn left_operand(n: nat) -> Seq<u64> {
    Seq::new(n * n, |t: int| ((t / (n as int) + t % (n as int)) % 7) as u64)
}

/// The right operand of side `n`: ones on the diagonal, and
/// (i + 2j) mod 5 at every other entry (i, j).
pub open spec fn right_operand(n: nat) -> Seq<u64> {
    Seq::new(
        n * n,
        |t: int|
            if t / (n as int) == t % (n as int) {
                1u64
            } else {
                ((t / (n as int) + 2 * (t % (n as int))) % 5) as u64
            },
    )
}

/// Entry (`i`, `j`) of a matrix of side `n` lies inside the matrix, and
/// division by the side recovers its row and its column. The next row
/// starts `n` positions after row `i`, no later than the matrix ends.
pub proof fn lemma_flat_position(n: int, i: int, j: int)
    requires
        0 <= i < n,
        0 <= j < n,
    ensures
        0 <= flat(n, i, j) < n * n,
        flat(n, i, j) / n == i,
        flat(n, i, j) % n == j,
        flat(n, i + 1, 0) == flat(n, i, 0) + n,
        flat(n, i + 1, 0) <= n * n,
{
    lemma_fundamental_div_mod_converse(i * n + j, n, i, j);
    assert(0 <= i * n && (i + 1) * n <= n * n && (i + 1) * n == i * n + n) by (nonlinear_arith)
        requires
            0 <= i < n,
    ;
}

/// A side whose square fits in 64 bits fits in 32.
proof fn lemma_side_fits_word(n: int)
    by (nonlinear_arith)
    requires
        0 <= n,
        n * n <= u64::MAX,
    ensures
        n <= u32::MAX,
{
}

/// A position inside the matrix lies in a row and a column inside it.
pub proof fn lemma_position_unflat(n: int, t: int)
    requires
        0 <= n,
        0 <= t < n * n,
    ensures
        0 <= t / n < n,
        0 <= t % n < n,
        t == flat(n, t / n, t % n),
{
    assert(n > 0) by (nonlinear_arith)
        requires
            0 <= n,
            0 <= t < n * n,
    ;
    lemma_div_pos_is_pos(t, n);
    lemma_multiply_divide_lt(t, n, n);
    lemma_mod_bound(t, n);
    lemma_fundamental_div_mod(t, n);
    assert(n * (t / n) == (t / n) * n) by (nonlinear_arith);
}

/// The operands hold, at the row-major position of (i, j), what the index
/// formulas give for row `i` and column `j`.
pub proof fn lemma_operand_entries(n: nat, i: int, j: int)
    requires
        0 <= i < n,
        0 <= j < n,
    ensures
        left_operand(n)[flat(n as int, i, j)] == (i + j) % 7,
        right_operand(n)[flat(n as int, i, j)] == if i == j {
            1
        } else {
            (i + 2 * j) % 5
        },
{
    lemma_flat_position(n as int, i, j);
}

/// Builds the two operands of side `n`, row by row.
pub fn build_operands(n: usize) -> (operands: (Vec<u64>, Vec<u64>))
    requires
        n * n <= usize::MAX,
    ensures
        operands.0@ == left_operand(n as nat),
        operands.1@ == right_operand(n as nat),
{
    proof {
        lemma_side_fits_word(n as int);
    }
    let len: usize = n * n;
    let mut a: Vec<u64> = vec![0u64; len];
    let mut b: Vec<u64> = vec![0u64; len];
    let mut i: usize = 0;
    while i < n
        invariant
            i <= n <= u32::MAX,
            a.len() == n * n,
            b.len() == n * n,
            forall|t: int| 0 <= t < flat(n as int, i as int, 0) ==> a[t] == left_operand(n as nat)[t],
            forall|t: int|
                0 <= t < flat(n as int, i as int, 0) ==> b[t] == right_operand(n as nat)[t],
        decreases n - i,
    {
        proof {
            lemma_flat_position(n as int, i as int, 0);
        }
        let row: usize = i * n;
        let mut j: usize = 0;
        while j < n
            invariant
                i < n <= u32::MAX,
                j <= n,
                row == flat(n as int, i as int, 0),
                a.len() == n * n,
                b.len() == n * n,
                forall|t: int| 0 <= t < row + j ==> a[t] == left_operand(n as nat)[t],
                forall|t: int| 0 <= t < row + j ==> b[t] == right_operand(n as nat)[t],
            decreases n - j,
        {
            proof {
                lemma_flat_position(n as int, i as int, j as int);
            }
            let left: u64 = (i as u64 + j as u64) % 7;
            let right: u64 = if i == j {
                1
            } else {
                (i as u64 + 2 * (j as u64)) % 5
            };
            a.set(row + j, left);
            b.set(row + j, right);
            j += 1;
        }
        i += 1;
    }
    proof {
        assert(flat(n as int, n as int, 0) == n * n);
        assert(a@ =~= left_operand(n as nat));
        assert(b@ =~= right_operand(n as nat));
    }
    (a, b)
}

/// Largest entry that `multiply` takes: with entries up to this, a dot
/// product of up to 2^32 terms fits in 64 bits.
pub const ENTRY_LIMIT: u64 = 0xffff;

/// The sum of the first `terms` products of row `i` of `a` with column `j`
/// of `b`, both of side `n`.
pub open spec fn dot(a: Seq<u64>, b: Seq<u64>, n: int, i: int, j: int, terms: nat) -> int
    decreases terms,
{
    if terms == 0 {
        0
    } else {
        dot(a, b, n, i, j, (terms - 1) as nat) + a[flat(n, i, terms - 1)] * b[flat(
            n,
            terms - 1,
            j,
        )]
    }
}

/// The entries of `m` as integers.
pub open spec fn as_ints(m: Seq<u64>) -> Seq<int> {
    m.map_values(|x: u64| x as int)
}

/// The matrix product of `a` and `b`, both of side `n`, in row-major order.
pub open spec fn product(a: Seq<u64>, b: Seq<u64>, n: nat) -> Seq<int> {
    Seq::new(n * n, |t: int| dot(a, b, n as int, t / (n as int), t % (n as int), n))
}

/// Whether every entry of `m` is at most `limit`.
pub open spec fn entries_at_most(m: Seq<u64>, limit: int) -> bool {
    forall|t: int| 0 <= t < m.len() ==> m[t] <= limit
}

/// A dot product of `terms` terms is at most `terms` times the product of
/// the largest entries of the two matrices.
pub proof fn lemma_dot_bound(
    a: Seq<u64>,
    b: Seq<u64>,
    n: int,
    i: int,
    j: int,
    terms: nat,
    a_limit: int,
    b_limit: int,
)
    requires
        a.len() == n * n,
        b.len() == n * n,
        entries_at_most(a, a_limit),
        entries_at_most(b, b_limit),
        0 <= i < n,
        0 <= j < n,
        terms <= n,
    ensures
        0 <= dot(a, b, n, i, j, terms) <= terms * (a_limit * b_limit),
    decreases terms,
{
    if terms == 0 {
        assert(terms * (a_limit * b_limit) == 0) by (nonlinear_arith)
            requires
                terms == 0,
        ;
    } else {
        let k: int = terms - 1;
        lemma_dot_bound(a, b, n, i, j, k as nat, a_limit, b_limit);
        lemma_flat_position(n, i, k);
        lemma_flat_position(n, k, j);
        let x: int = a[flat(n, i, k)] as int;
        let y: int = b[flat(n, k, j)] as int;
        assert(0 <= x * y <= a_limit * b_limit && terms * (a_limit * b_limit) == k * (a_limit
            * b_limit) + a_limit * b_limit) by (nonlinear_arith)
            requires
                0 <= x <= a_limit,
                0 <= y <= b_limit,
                terms == k + 1,
        ;
    }
}

/// Whether `c` is the product of `a` and `b` under construction: the rows
/// above `i` are finished, row `i` holds the dot products of the first `k`
/// terms, and of one term more in the columns below `j`, and the rows below
/// `i` hold zeros.
spec fn building(c: Seq<u64>, a: Seq<u64>, b: Seq<u64>, n: int, i: int, k: int, j: int) -> bool {
    let row = flat(n, i, 0);
    &&& c.len() == n * n
    &&& forall|t: int| 0 <= t < row && t < c.len() ==> #[trigger] c[t] == product(a, b, n as nat)[t]
    &&& forall|t: int|
        row <= t < row + j && t < c.len() ==> #[trigger] c[t] == dot(
            a,
            b,
            n,
            i,
            t - row,
            (k + 1) as nat,
        )
    &&& forall|t: int|
        row + j <= t < row + n && t < c.len() ==> #[trigger] c[t] == dot(
            a,
            b,
            n,
            i,
            t - row,
            k as nat,
        )
    &&& forall|t: int| row + n <= t < c.len() ==> #[trigger] c[t] == 0
}

/// A row that holds the dot products of all `n` terms is finished, and the
/// next row, still zero, holds the dot products of no terms.
proof fn lemma_row_finished(c: Seq<u64>, a: Seq<u64>, b: Seq<u64>, n: int, i: int)
    requires
        0 <= i < n,
        building(c, a, b, n, i, n, 0),
    ensures
        building(c, a, b, n, i + 1, 0, 0),
{
    let row = flat(n, i, 0);
    lemma_flat_position(n, i, 0);
    assert forall|t: int| 0 <= t < row + n implies #[trigger] c[t] == product(a, b, n as nat)[t] by {
        if t >= row {
            lemma_flat_position(n, i, t - row);
        }
    }
}

/// Multiplies two square matrices of side `n`, held in row-major order,
/// whose entries do not exceed `ENTRY_LIMIT`. Row `i` of the product is
/// built up by adding, for each `k` in turn, entry (i, k) of `a` times row
/// `k` of `b`.
pub fn multiply(a: &Vec<u64>, b: &Vec<u64>, n: usize) -> (c: Vec<u64>)
    requires
        a.len() == n * n,
        b.len() == n * n,
        entries_at_most(a@, ENTRY_LIMIT as int),
        entries_at_most(b@, ENTRY_LIMIT as int),
    ensures
        as_ints(c@) == product(a@, b@, n as nat),
{
    proof {
        lemma_side_fits_word(n as int);
    }
    let len: usize = n * n;
    let mut c: Vec<u64> = vec![0u64; len];
    let mut i: usize = 0;
    while i < n
        invariant
            i <= n <= u32::MAX,
            a.len() == n * n,
            b.len() == n * n,
            entries_at_most(a@, ENTRY_LIMIT as int),
            entries_at_most(b@, ENTRY_LIMIT as int),
            building(c@, a@, b@, n as int, i as int, 0, 0),
        decreases n - i,
    {
        proof {
            lemma_flat_position(n as int, i as int, 0);
        }
        let row: usize = i * n;
        let mut k: usize = 0;
        while k < n
            invariant
                i < n <= u32::MAX,
                k <= n,
                row == flat(n as int, i as int, 0),
                row + n <= n * n,
                a.len() == n * n,
                b.len() == n * n,
                entries_at_most(a@, ENTRY_LIMIT as int),
                entries_at_most(b@, ENTRY_LIMIT as int),
                building(c@, a@, b@, n as int, i as int, k as int, 0),
            decreases n - k,
        {
            proof {
                lemma_flat_position(n as int, k as int, 0);
            }
            let aik: u64 = a[row + k];
            let other: usize = k * n;
            let mut j: usize = 0;
            while j < n
                invariant
                    i < n <= u32::MAX,
                    k < n,
                    j <= n,
                    row == flat(n as int, i as int, 0),
                    other == flat(n as int, k as int, 0),
                    row + n <= n * n,
                    other + n <= n * n,
                    aik == a[row + k],
                    a.len() == n * n,
                    b.len() == n * n,
                    entries_at_most(a@, ENTRY_LIMIT as int),
                    entries_at_most(b@, ENTRY_LIMIT as int),
                    building(c@, a@, b@, n as int, i as int, k as int, j as int),
                decreases n - j,
            {
                let bkj: u64 = b[other + j];
                proof {
                    lemma_dot_bound(
                        a@,
                        b@,
                        n as int,
                        i as int,
                        j as int,
                        (k + 1) as nat,
                        ENTRY_LIMIT as int,
                        ENTRY_LIMIT as int,
                    );
                    assert((k + 1) * (0xffff * 0xffff) <= u64::MAX) by (nonlinear_arith)
                        requires
                            k < u32::MAX,
                    ;
                    lemma_flat_position(n as int, i as int, k as int);
                    lemma_flat_position(n as int, k as int, j as int);
                }
                let sum: u64 = c[row + j] + aik * bkj;
                c.set(row + j, sum);
                j += 1;
            }
            k += 1;
        }
        proof {
            lemma_row_finished(c@, a@, b@, n as int, i as int);
        }
        i += 1;
    }
    proof {
        assert(flat(n as int, n as int, 0) == n * n);
        assert(as_ints(c@) =~= product(a@, b@, n as nat));
    }
    c
}

/// What one entry of a product adds to the checksum: the entry narrowed to
/// a 32-bit word, the largest word standing for every entry beyond it, and
/// then reduced modulo `MOD`.
pub open spec fn folded_entry(x: int) -> int {
    (if x > u32::MAX {
        u32::MAX as int
    } else {
        x
    }) % (MOD as int)
}

/// The sum of what each entry of `c` adds to the checksum.
pub open spec fn folded_sum(c: Seq<int>) -> int
    decreases c.len(),
{
    if c.len() == 0 {
        0
    } else {
        folded_sum(c.drop_last()) + folded_entry(c.last())
    }
}

/// The checksum of `c`: the folded sum of its entries, modulo `MOD`.
pub open spec fn checksum_of(c: Seq<int>) -> int {
    folded_sum(c) % (MOD as int)
}

/// Folds the entries of `c`, in order, into a checksum that stays below
/// `MOD` after every addition.
pub fn fold_checksum(c: &Vec<u64>) -> (checksum: u32)
    ensures
        checksum == checksum_of(as_ints(c@)),
        checksum < MOD,
{
    let mut checksum: u32 = 0;
    let mut t: usize = 0;
    while t < c.len()
        invariant
            t <= c.len(),
            checksum < MOD,
            checksum == checksum_of(as_ints(c@).take(t as int)),
        decreases c.len() - t,
    {
        let x: u64 = c[t];
        let word: u32 = if x > u32::MAX as u64 {
            u32::MAX
        } else {
            x as u32
        };
        proof {
            let done: Seq<int> = as_ints(c@).take(t as int);
            let next: Seq<int> = as_ints(c@).take(t + 1);
            assert(next.drop_last() =~= done);
            assert(next.last() == x);
            lemma_add_mod_noop(folded_sum(done), folded_entry(x as int), MOD as int);
            lemma_mod_twice(
                if x > u32::MAX {
                    u32::MAX as int
                } else {
                    x as int
                },
                MOD as int,
            );
        }
        checksum = (checksum + word % MOD) % MOD;
        t += 1;
    }
    proof {
        assert(as_ints(c@).take(c.len() as int) =~= as_ints(c@));
    }
    checksum
}

/// The plain sum of the entries of `c`.
pub open spec fn entry_sum(c: Seq<int>) -> int
    decreases c.len(),
{
    if c.len() == 0 {
        0
    } else {
        entry_sum(c.drop_last()) + c.last()
    }
}

/// Where every entry fits a 32-bit word, the checksum is the sum of the
/// entries modulo `MOD`.
pub proof fn lemma_checksum_is_sum(c: Seq<int>)
    requires
        forall|t: int| 0 <= t < c.len() ==> 0 <= #[trigger] c[t] && c[t] <= u32::MAX,
    ensures
        checksum_of(c) == entry_sum(c) % (MOD as int),
    decreases c.len(),
{
    if c.len() > 0 {
        lemma_checksum_is_sum(c.drop_last());
        lemma_add_mod_noop(folded_sum(c.drop_last()), folded_entry(c.last()), MOD as int);
        lemma_add_mod_noop(entry_sum(c.drop_last()), c.last(), MOD as int);
        lemma_mod_twice(c.last(), MOD as int);
    }
}

/// The checksum of the product of the two operands of side `n`.
pub open spec fn matmul_checksum(n: nat) -> int {
    checksum_of(product(left_operand(n), right_operand(n), n))
}

/// No entry of the product of the two operands exceeds 24 times the side:
/// the left operand holds nothing above 6, the right one nothing above 4.
pub proof fn lemma_matmul_entry_bound(n: nat, t: int)
    requires
        0 <= t < n * n,
    ensures
        0 <= product(left_operand(n), right_operand(n), n)[t] <= 24 * n,
{
    lemma_position_unflat(n as int, t);
    lemma_dot_bound(
        left_operand(n),
        right_operand(n),
        n as int,
        t / (n as int),
        t % (n as int),
        n,
        6,
        4,
    );
}

/// For sides up to 178,956,970 every entry of the product fits a 32-bit
/// word, and the checksum is the sum of all entries modulo `MOD`.
pub proof fn lemma_matmul_checksum_is_sum(n: nat)
    requires
        24 * n <= u32::MAX,
    ensures
        matmul_checksum(n) == entry_sum(product(left_operand(n), right_operand(n), n)) % (
        MOD as int),
{
    let c: Seq<int> = product(left_operand(n), right_operand(n), n);
    assert forall|t: int| 0 <= t < c.len() implies 0 <= #[trigger] c[t] && c[t] <= u32::MAX by {
        lemma_matmul_entry_bound(n, t);
    }
    lemma_checksum_is_sum(c);
}

/// What `matmul` ensures admits one checksum for each side: two calls on
/// the same side return the same checksum, whatever ran in between.
pub proof fn lemma_matmul_deterministic(size: u32, first: u32, second: u32)
    requires
        first == matmul_checksum(size as nat),
        second == matmul_checksum(size as nat),
    ensures
        first == second,
{
}

/// Builds the two operands of side `size`, multiplies them, and returns
/// the checksum of the product. Each of the three matrices has `size`
/// squared entries, a number that has to fit in `usize`.
pub fn matmul(size: u32) -> (checksum: u32)
    requires
        size * size <= usize::MAX,
    ensures
        checksum == matmul_checksum(size as nat),
        checksum < MOD,
        size == 0 ==> checksum == 0,
{
    let n: usize = size as usize;
    let (a, b) = build_operands(n);
    let c: Vec<u64> = multiply(&a, &b, n);
    proof {
        if size == 0 {
            assert(product(a@, b@, 0).len() == 0);
        }
    }
    fold_checksum(&c)
}

} // verus!
