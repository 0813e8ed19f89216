//! The Hill cipher engine: multiplies each plaintext block by the key matrix
//! and reduces every entry modulo 26 into the range 0..=25.

use vstd::prelude::*;

verus! {

use vstd::arithmetic::div_mod::{
    lemma_add_mod_noop,
    lemma_mod_twice,
    lemma_mul_mod_noop_general,
};

/// The dot product of the first `k` entries of a key row and a block.
pub open spec fn dot(row: Seq<i64>, blk: Seq<i64>, k: int) -> int
    decreases k,
{
    if k <= 0 {
        0
    } else {
        dot(row, blk, k - 1) + row[k - 1] * blk[k - 1]
    }
}

/// The ciphertext value for block `b` and key row `r`: their dot product over
/// `n` terms, reduced modulo 26 into 0..=25.
pub open spec fn hill_cell(key: Seq<Vec<i64>>, blocks: Seq<Vec<i64>>, n: int, b: int, r: int) -> int {
    dot(key[r]@, blocks[b]@, n) % 26
}

/// Euclidean remainder modulo 26: always in 0..=25, also for negative values.
pub fn mod26(x: i64) -> (r: i64)
    ensures
        r == (x as int) % 26,
        0 <= r < 26,
{
    let t = x % 26;
    if t < 0 {
        t + 26
    } else {
        t
    }
}

/// One reduced accumulation step equals extending the dot product by one term
/// and reducing the whole sum.
proof fn lemma_dot_step_mod(a: int, x: int, y: int)
    ensures
        (a % 26 + (x % 26) * (y % 26)) % 26 == (a + x * y) % 26,
{
    let p = x * y;
    lemma_mul_mod_noop_general(x, y, 26);
    lemma_add_mod_noop(a % 26, (x % 26) * (y % 26), 26);
    lemma_mod_twice(a, 26);
    lemma_mod_twice((x % 26) * (y % 26), 26);
    assert((a % 26 + (x % 26) * (y % 26)) % 26 == ((a % 26) % 26 + ((x % 26) * (y % 26)) % 26)
        % 26);
    lemma_add_mod_noop(a, p, 26);
}

/// Encrypts the packed plaintext blocks with the key matrix: for each block,
/// in order, and each key row, in order, emits the dot product of row and
/// block reduced modulo 26. Every output value lies in 0..=25, and the output
/// length is the number of blocks times the matrix dimension.
pub fn compute_hill_cipher(
    key_size: &usize,
    key_matrix: &Vec<Vec<i64>>,
    plaintext_matrix: &Vec<Vec<i64>>,
) -> (r: Vec<i64>)
    requires
        *key_size >= 1,
        key_matrix@.len() == *key_size,
        forall|i: int| 0 <= i < key_matrix@.len() ==> #[trigger] key_matrix@[i]@.len() >= *key_size,
        forall|i: int|
            0 <= i < plaintext_matrix@.len() ==> #[trigger] plaintext_matrix@[i]@.len()
                >= *key_size,
        plaintext_matrix@.len() * *key_size <= usize::MAX,
    ensures
        r@.len() == plaintext_matrix@.len() * *key_size,
        forall|b: int, k: int|
            0 <= b < plaintext_matrix@.len() && 0 <= k < *key_size ==> #[trigger] r@[b * *key_size
                + k] == hill_cell(key_matrix@, plaintext_matrix@, *key_size as int, b, k),
        forall|i: int| 0 <= i < r@.len() ==> 0 <= #[trigger] r@[i] < 26,
{
    let n = *key_size;
    let mut cipher_text: Vec<i64> = Vec::new();
    let mut b: usize = 0;
    while b < plaintext_matrix.len()
        invariant
            n == *key_size >= 1,
            key_matrix@.len() == n,
            forall|i: int| 0 <= i < key_matrix@.len() ==> #[trigger] key_matrix@[i]@.len() >= n,
            forall|i: int|
                0 <= i < plaintext_matrix@.len() ==> #[trigger] plaintext_matrix@[i]@.len() >= n,
            plaintext_matrix@.len() * n <= usize::MAX,
            b <= plaintext_matrix@.len(),
            cipher_text@.len() == b * n,
            forall|bb: int, k: int|
                0 <= bb < b && 0 <= k < n ==> #[trigger] cipher_text@[bb * n + k] == hill_cell(
                    key_matrix@,
                    plaintext_matrix@,
                    n as int,
                    bb,
                    k,
                ),
            forall|i: int| 0 <= i < cipher_text@.len() ==> 0 <= #[trigger] cipher_text@[i] < 26,
        decreases plaintext_matrix@.len() - b,
    {
        proof {
            assert((b + 1) * n == b * n + n) by (nonlinear_arith);
            assert(b * n + n <= plaintext_matrix@.len() * n) by (nonlinear_arith)
                requires
                    b + 1 <= plaintext_matrix@.len(),
                    n >= 1,
            ;
        }
        let block = &plaintext_matrix[b];
        let mut k: usize = 0;
        while k < n
            invariant
                n == *key_size >= 1,
                key_matrix@.len() == n,
                forall|i: int| 0 <= i < key_matrix@.len() ==> #[trigger] key_matrix@[i]@.len() >= n,
                forall|i: int|
                    0 <= i < plaintext_matrix@.len() ==> #[trigger] plaintext_matrix@[i]@.len()
                        >= n,
                b < plaintext_matrix@.len(),
                block == &plaintext_matrix@[b as int],
                k <= n,
                b * n + n <= usize::MAX,
                cipher_text@.len() == b * n + k,
                forall|bb: int, kk: int|
                    0 <= bb < b && 0 <= kk < n ==> #[trigger] cipher_text@[bb * n + kk]
                        == hill_cell(key_matrix@, plaintext_matrix@, n as int, bb, kk),
                forall|kk: int|
                    0 <= kk < k ==> #[trigger] cipher_text@[b * n + kk] == hill_cell(
                        key_matrix@,
                        plaintext_matrix@,
                        n as int,
                        b as int,
                        kk,
                    ),
                forall|i: int| 0 <= i < cipher_text@.len() ==> 0 <= #[trigger] cipher_text@[i]
                    < 26,
            decreases n - k,
        {
            let row = &key_matrix[k];
            let mut sum: i64 = 0;
            let mut j: usize = 0;
            while j < n
                invariant
                    n >= 1,
                    j <= n,
                    row@.len() >= n,
                    block@.len() >= n,
                    0 <= sum < 26,
                    sum == dot(row@, block@, j as int) % 26,
                decreases n - j,
            {
                let mr = mod26(row[j]);
                let mb = mod26(block[j]);
                proof {
                    lemma_dot_step_mod(
                        dot(row@, block@, j as int),
                        row@[j as int] as int,
                        block@[j as int] as int,
                    );
                    assert(0 <= mr * mb < 676) by (nonlinear_arith)
                        requires
                            0 <= mr < 26,
                            0 <= mb < 26,
                    ;
                }
                sum = (sum + mr * mb) % 26;
                j = j + 1;
            }
            let ghost pre = cipher_text@;
            cipher_text.push(sum);
            k = k + 1;
            proof {
                assert forall|bb: int, kk: int| 0 <= bb < b && 0 <= kk < n implies #[trigger]
                    cipher_text@[bb * n + kk] == hill_cell(
                    key_matrix@,
                    plaintext_matrix@,
                    n as int,
                    bb,
                    kk,
                ) by {
                    assert(bb * n + kk < b * n) by (nonlinear_arith)
                        requires
                            0 <= bb,
                            bb < b,
                            0 <= kk < n,
                    ;
                    assert(cipher_text@[bb * n + kk] == pre[bb * n + kk]);
                }
            }
        }
        b = b + 1;
        proof {
            assert(b * n == (b - 1) * n + n) by (nonlinear_arith);
            assert forall|bb: int, kk: int| 0 <= bb < b && 0 <= kk < n implies #[trigger]
                cipher_text@[bb * n + kk] == hill_cell(
                key_matrix@,
                plaintext_matrix@,
                n as int,
                bb,
                kk,
            ) by {
                if bb == b - 1 {
                    assert(bb * n + kk == (b - 1) * n + kk);
                }
            }
        }
    }
    cipher_text
}

/// Encrypts `blocks` with `key_matrix` of dimension `size`; the numeric
/// ciphertext, one value in 0..=25 per (block, key row) pair.
pub fn encrypt(
    key_matrix: &Vec<Vec<i64>>,
    blocks: &Vec<Vec<i64>>,
    size: usize,
) -> (r: Vec<i64>)
    requires
        size >= 1,
        key_matrix@.len() == size,
        forall|i: int| 0 <= i < key_matrix@.len() ==> #[trigger] key_matrix@[i]@.len() >= size,
        forall|i: int| 0 <= i < blocks@.len() ==> #[trigger] blocks@[i]@.len() >= size,
        blocks@.len() * size <= usize::MAX,
    ensures
        r@.len() == blocks@.len() * size,
        forall|b: int, k: int|
            0 <= b < blocks@.len() && 0 <= k < size ==> #[trigger] r@[b * size + k] == hill_cell(
                key_matrix@,
                blocks@,
                size as int,
                b,
                k,
            ),
        forall|i: int| 0 <= i < r@.len() ==> 0 <= #[trigger] r@[i] < 26,
{
    compute_hill_cipher(&size, key_matrix, blocks)
}

} // verus!
