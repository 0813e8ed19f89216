//! Packs a numeric plaintext stream into fixed-width blocks matching the key
//! matrix dimension, padding the final partial block with the residue 23
//! (the letter 'X').

use vstd::prelude::*;

verus! {

use vstd::arithmetic::div_mod::lemma_fundamental_div_mod_converse;

/// The padding residue appended to fill the final partial block.
pub open spec fn pad_value() -> i64 {
    23
}

/// The number of blocks a stream of length `len` packs into: `len / n`
/// rounded up, and 0 for an empty stream.
pub open spec fn num_blocks(len: int, n: int) -> int {
    (len + n - 1) / n
}

/// Entry `j` of block `b`: the stream value at position `b * n + j`, or the
/// padding residue 23 past the end of the stream.
pub open spec fn block_entry(stream: Seq<u8>, n: int, b: int, j: int) -> i64 {
    if b * n + j < stream.len() {
        stream[b * n + j] as i64
    } else {
        pad_value()
    }
}

/// Partitions the numeric stream into consecutive blocks of exactly `size`
/// values, padding the final partial block with 23; an empty stream packs
/// into no blocks at all.
pub fn get_clean_plaintext(size: &usize, plaintext: &Vec<u8>) -> (r: Vec<Vec<i64>>)
    requires
        *size >= 1,
    ensures
        r@.len() == num_blocks(plaintext@.len() as int, *size as int),
        forall|b: int| 0 <= b < r@.len() ==> #[trigger] r@[b]@.len() == *size,
        forall|b: int, j: int|
            0 <= b < r@.len() && 0 <= j < *size ==> #[trigger] r@[b]@[j] == block_entry(
                plaintext@,
                *size as int,
                b,
                j,
            ),
{
    let n = *size;
    let len = plaintext.len();
    let ghost l = len as int;
    let mut blocks: Vec<Vec<i64>> = Vec::new();
    let mut i: usize = 0;
    proof {
        assert(blocks@.len() * n as int == 0) by (nonlinear_arith)
            requires
                blocks@.len() == 0,
        ;
    }
    while len - i >= n
        invariant
            n >= 1,
            len == plaintext@.len(),
            i <= len,
            i == blocks@.len() * n,
            forall|b: int| 0 <= b < blocks@.len() ==> #[trigger] blocks@[b]@.len() == n,
            forall|b: int, j: int|
                0 <= b < blocks@.len() && 0 <= j < n ==> #[trigger] blocks@[b]@[j] == block_entry(
                    plaintext@,
                    n as int,
                    b,
                    j,
                ),
        decreases len - i,
    {
        let mut cur: Vec<i64> = Vec::new();
        let mut j: usize = 0;
        while j < n
            invariant
                n >= 1,
                len == plaintext@.len(),
                i + n <= len,
                j <= n,
                cur@.len() == j,
                forall|q: int| 0 <= q < j ==> #[trigger] cur@[q] == plaintext@[i + q] as i64,
            decreases n - j,
        {
            cur.push(plaintext[i + j] as i64);
            j = j + 1;
        }
        let ghost b0 = blocks@.len() as int;
        blocks.push(cur);
        i = i + n;
        proof {
            assert((b0 + 1) * n == b0 * n + n) by (nonlinear_arith);
            assert forall|b: int, j: int|
                0 <= b < blocks@.len() && 0 <= j < n implies #[trigger] blocks@[b]@[j]
                == block_entry(plaintext@, n as int, b, j) by {
                if b == b0 {
                    assert(b * n == i - n);
                    assert(b * n + j < len);
                }
            }
        }
    }
    let ghost full = blocks@.len() as int;
    proof {
        assert(l - full * n < n);
    }
    if i < len {
        // final partial block: the stream's tail, padded with 23 up to length n
        let mut cur: Vec<i64> = Vec::new();
        let mut j: usize = 0;
        while j < n
            invariant
                n >= 1,
                len == plaintext@.len(),
                i < len,
                i == full * n,
                j <= n,
                cur@.len() == j,
                forall|q: int|
                    0 <= q < j ==> #[trigger] cur@[q] == block_entry(plaintext@, n as int, full, q),
            decreases n - j,
        {
            if j < len - i {
                cur.push(plaintext[i + j] as i64);
            } else {
                cur.push(23);
            }
            j = j + 1;
        }
        blocks.push(cur);
        proof {
            // with a nonempty tail, the stream fills exactly full + 1 blocks
            let t = l - full * n;
            assert((full + 1) * n == full * n + n) by (nonlinear_arith);
            lemma_fundamental_div_mod_converse(l + n - 1, n as int, full + 1, t - 1);
        }
    } else {
        proof {
            if l > 0 {
                lemma_fundamental_div_mod_converse(l + n - 1, n as int, full, n as int - 1);
            } else {
                assert(full == 0) by (nonlinear_arith)
                    requires
                        full * n == 0,
                        n >= 1,
                        full >= 0,
                ;
                lemma_fundamental_div_mod_converse(n as int - 1, n as int, 0, n as int - 1);
            }
        }
    }
    blocks
}

/// Packs `numeric_stream` into blocks of width `size`, padding the final
/// partial block with the residue 23.
pub fn pack_blocks(numeric_stream: &Vec<u8>, size: usize) -> (r: Vec<Vec<i64>>)
    requires
        size >= 1,
    ensures
        r@.len() == num_blocks(numeric_stream@.len() as int, size as int),
        forall|b: int| 0 <= b < r@.len() ==> #[trigger] r@[b]@.len() == size,
        forall|b: int, j: int|
            0 <= b < r@.len() && 0 <= j < size ==> #[trigger] r@[b]@[j] == block_entry(
                numeric_stream@,
                size as int,
                b,
                j,
            ),
{
    get_clean_plaintext(&size, numeric_stream)
}

} // verus!
