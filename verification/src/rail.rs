//! Rail fence transposition: characters are distributed over `d` rails in a
//! zig-zag (bounce) pattern and read back rail by rail.

use vstd::prelude::*;

verus! {

use vstd::arithmetic::div_mod::{
    lemma_add_mod_noop,
    lemma_mod_self_0,
    lemma_small_mod,
    lemma_mod_bound,
};

/// Length of one full zig-zag period over `d` rails.
pub open spec fn cycle(d: int) -> int {
    2 * (d - 1)
}

/// The rail on which the character at position `i` lands, for depth `d >= 2`:
/// positions walk rails 0, 1, ..., d-1, d-2, ..., 1, 0, 1, ... forever.
pub open spec fn rail_of(i: int, d: int) -> int {
    let p = i % cycle(d);
    if p < d {
        p
    } else {
        cycle(d) - p
    }
}

/// The characters of `s` that land on rail `r`, in input order.
pub open spec fn rail_cells(s: Seq<char>, d: int, r: int) -> Seq<char>
    decreases s.len(),
{
    if s.len() == 0 {
        Seq::empty()
    } else if rail_of(s.len() - 1, d) == r {
        rail_cells(s.drop_last(), d, r).push(s.last())
    } else {
        rail_cells(s.drop_last(), d, r)
    }
}

/// The concatenation of rails 0, 1, ..., m-1 of `s`.
pub open spec fn rails_concat(s: Seq<char>, d: int, m: int) -> Seq<char>
    decreases m,
{
    if m <= 0 {
        Seq::empty()
    } else {
        rails_concat(s, d, m - 1) + rail_cells(s, d, m - 1)
    }
}

/// The transposed sequence: unchanged at depth 1, otherwise the rails of `s`
/// concatenated in ascending rail order.
pub open spec fn rail_transposed(s: Seq<char>, d: int) -> Seq<char> {
    if d <= 1 {
        s
    } else {
        rails_concat(s, d, d)
    }
}

/// The rail index is always one of 0, ..., d-1.
pub proof fn lemma_rail_of_range(i: int, d: int)
    requires
        d >= 2,
        i >= 0,
    ensures
        0 <= rail_of(i, d) < d,
{
    lemma_mod_bound(i, cycle(d));
}

/// How the rail of position `i + 1` follows from the rail of position `i`:
/// one step down the rails while below d-1, one step up while above 0.
pub proof fn lemma_rail_of_step(i: int, d: int)
    requires
        d >= 2,
        i >= 0,
    ensures
        i % cycle(d) < d - 1 ==> rail_of(i + 1, d) == rail_of(i, d) + 1,
        i % cycle(d) >= d - 1 ==> rail_of(i + 1, d) == rail_of(i, d) - 1,
{
    let c = cycle(d);
    let p = i % c;
    lemma_mod_bound(i, c);
    lemma_add_mod_noop(i, 1, c);
    lemma_small_mod(1nat, c as nat);
    if p + 1 == c {
        lemma_mod_self_0(c);
        assert((i + 1) % c == (p + 1) % c);
    } else {
        lemma_small_mod((p + 1) as nat, c as nat);
        assert((i + 1) % c == p + 1);
    }
}

/// How many of the positions 0, ..., upto-1 land on rail `r`.
pub open spec fn count_on_rail(d: int, r: int, upto: int) -> int
    decreases upto,
{
    if upto <= 0 {
        0
    } else {
        count_on_rail(d, r, upto - 1) + if rail_of(upto - 1, d) == r {
            1int
        } else {
            0int
        }
    }
}

/// How many of the positions 0, ..., len-1 land on a rail below `r`.
pub open spec fn count_below(d: int, r: int, len: int) -> int
    decreases r,
{
    if r <= 0 {
        0
    } else {
        count_below(d, r - 1, len) + count_on_rail(d, r - 1, len)
    }
}

/// The output position the transposition sends input position `i` to: all
/// characters on lower rails come first, then the earlier characters of the
/// same rail.
pub open spec fn dest_index(i: int, len: int, d: int) -> int {
    count_below(d, rail_of(i, d), len) + count_on_rail(d, rail_of(i, d), i)
}

proof fn lemma_count_nonneg(d: int, r: int, upto: int)
    ensures
        count_on_rail(d, r, upto) >= 0,
    decreases upto,
{
    if upto > 0 {
        lemma_count_nonneg(d, r, upto - 1);
    }
}

proof fn lemma_count_mono(d: int, r: int, a: int, b: int)
    requires
        a <= b,
    ensures
        count_on_rail(d, r, a) <= count_on_rail(d, r, b),
    decreases b - a,
{
    if a < b {
        lemma_count_mono(d, r, a, b - 1);
    }
}

proof fn lemma_count_below_mono(d: int, a: int, b: int, len: int)
    requires
        a <= b,
    ensures
        count_below(d, a, len) <= count_below(d, b, len),
    decreases b - a,
{
    if a < b {
        lemma_count_below_mono(d, a, b - 1, len);
        lemma_count_nonneg(d, b - 1, len);
    }
}

/// A rail holds exactly as many characters as positions land on it.
proof fn lemma_rail_cells_len(s: Seq<char>, d: int, r: int)
    ensures
        rail_cells(s, d, r).len() == count_on_rail(d, r, s.len() as int),
    decreases s.len(),
{
    if s.len() > 0 {
        lemma_rail_cells_len(s.drop_last(), d, r);
    }
}

/// The concatenation of the first `m` rails holds exactly the characters of
/// positions landing below rail `m`.
proof fn lemma_rails_concat_len(s: Seq<char>, d: int, m: int)
    ensures
        rails_concat(s, d, m).len() == count_below(d, m, s.len() as int),
    decreases m,
{
    if m > 0 {
        lemma_rails_concat_len(s, d, m - 1);
        lemma_rail_cells_len(s, d, m - 1);
    }
}

/// Within its rail, the character of position `i` sits after exactly the
/// characters of the earlier positions on the same rail.
proof fn lemma_rail_cells_at(s: Seq<char>, d: int, r: int, i: int)
    requires
        0 <= i < s.len(),
        rail_of(i, d) == r,
    ensures
        count_on_rail(d, r, i) < rail_cells(s, d, r).len(),
        rail_cells(s, d, r)[count_on_rail(d, r, i)] == s[i],
    decreases s.len(),
{
    lemma_rail_cells_len(s.drop_last(), d, r);
    let pre = rail_cells(s.drop_last(), d, r);
    let k = count_on_rail(d, r, i);
    if i == s.len() - 1 {
        lemma_count_nonneg(d, r, i);
        assert(rail_cells(s, d, r) == pre.push(s.last()));
        assert(k == pre.len());
        assert(pre.push(s.last())[pre.len() as int] == s.last());
    } else {
        lemma_rail_cells_at(s.drop_last(), d, r, i);
        lemma_count_nonneg(d, r, i);
        assert(pre[k] == s.drop_last()[i]);
        assert(s.drop_last()[i] == s[i]);
        if rail_of(s.len() - 1, d) == r {
            assert(rail_cells(s, d, r) == pre.push(s.last()));
            assert(pre.push(s.last())[k] == pre[k]);
        } else {
            assert(rail_cells(s, d, r) == pre);
        }
    }
}

/// Inside the full concatenation, rail `r` starts at offset
/// `count_below(d, r, len)`.
proof fn lemma_rails_concat_at(s: Seq<char>, d: int, m: int, r: int, k: int)
    requires
        0 <= r < m,
        0 <= k < rail_cells(s, d, r).len(),
    ensures
        count_below(d, r, s.len() as int) + k < count_below(d, m, s.len() as int),
        rails_concat(s, d, m)[count_below(d, r, s.len() as int) + k] == rail_cells(s, d, r)[k],
    decreases m,
{
    lemma_rails_concat_len(s, d, m - 1);
    lemma_rail_cells_len(s, d, r);
    let len = s.len() as int;
    let head = rails_concat(s, d, m - 1);
    assert(rails_concat(s, d, m) == head + rail_cells(s, d, m - 1));
    if r == m - 1 {
        lemma_count_nonneg(d, r, len);
        assert(head.len() == count_below(d, r, len));
        assert((head + rail_cells(s, d, r))[head.len() + k] == rail_cells(s, d, r)[k]);
    } else {
        lemma_rails_concat_at(s, d, m - 1, r, k);
        lemma_count_nonneg(d, m - 1, len);
        lemma_count_below_mono(d, 0, r, len);
        assert(count_below(d, r, len) + k < head.len());
        assert((head + rail_cells(s, d, m - 1))[count_below(d, r, len) + k] == head[count_below(
            d,
            r,
            len,
        ) + k]);
    }
}

/// Extending the counted range by one position adds that position to exactly
/// the rails above its own.
proof fn lemma_count_below_step(d: int, m: int, len: int)
    requires
        d >= 2,
        len >= 1,
    ensures
        count_below(d, m, len) == count_below(d, m, len - 1) + if rail_of(len - 1, d) < m {
            1int
        } else {
            0int
        },
    decreases m,
{
    if m > 0 {
        lemma_count_below_step(d, m - 1, len);
    }
}

/// Every position lands on exactly one of the `d` rails, so the rails
/// together hold every position once.
proof fn lemma_count_below_all(d: int, len: int)
    requires
        d >= 2,
        len >= 0,
    ensures
        count_below(d, d, len) == len,
    decreases len,
{
    if len == 0 {
        lemma_count_below_empty(d, d);
    } else {
        lemma_count_below_all(d, len - 1);
        lemma_rail_of_range(len - 1, d);
        lemma_count_below_step(d, d, len);
    }
}

/// No rail holds anything before the first position.
proof fn lemma_count_below_empty(d: int, m: int)
    ensures
        count_below(d, m, 0) == 0,
    decreases m,
{
    if m > 0 {
        lemma_count_below_empty(d, m - 1);
    }
}

/// The rail fence transposition of any sequence at any depth of at least 2 is
/// a fixed bijection on index positions: the output keeps the input's length,
/// every input position `i` reappears at output position
/// `dest_index(i, len, d)`, that position is in range, and no two input
/// positions share an output position. Sending each output position
/// `dest_index(i, len, d)` back to `i` therefore reconstructs the input.
pub proof fn lemma_rail_fence_bijection(s: Seq<char>, d: int)
    requires
        d >= 2,
    ensures
        rail_transposed(s, d).len() == s.len(),
        forall|i: int|
            0 <= i < s.len() ==> 0 <= #[trigger] dest_index(i, s.len() as int, d) < s.len(),
        forall|i: int|
            0 <= i < s.len() ==> rail_transposed(s, d)[#[trigger] dest_index(i, s.len() as int, d)]
                == s[i],
        forall|i: int, j: int|
            0 <= i < s.len() && 0 <= j < s.len() && i != j ==> #[trigger] dest_index(
                i,
                s.len() as int,
                d,
            ) != #[trigger] dest_index(j, s.len() as int, d),
{
    let len = s.len() as int;
    lemma_rails_concat_len(s, d, d);
    lemma_count_below_all(d, len);
    assert forall|i: int| 0 <= i < len implies {
        &&& 0 <= #[trigger] dest_index(i, len, d) < len
        &&& rail_transposed(s, d)[dest_index(i, len, d)] == s[i]
    } by {
        let r = rail_of(i, d);
        lemma_rail_of_range(i, d);
        lemma_rail_cells_at(s, d, r, i);
        lemma_count_nonneg(d, r, i);
        lemma_rails_concat_at(s, d, d, r, count_on_rail(d, r, i));
        lemma_count_below_mono(d, 0, r, len);
    }
    assert forall|i: int, j: int| 0 <= i < len && 0 <= j < len && i != j implies #[trigger]
        dest_index(i, len, d) != #[trigger] dest_index(j, len, d) by {
        lemma_dest_distinct(s, d, i, j);
    }
}

/// Distinct positions land on distinct output positions.
proof fn lemma_dest_distinct(s: Seq<char>, d: int, i: int, j: int)
    requires
        d >= 2,
        0 <= i < s.len(),
        0 <= j < s.len(),
        i != j,
    ensures
        dest_index(i, s.len() as int, d) != dest_index(j, s.len() as int, d),
{
    let len = s.len() as int;
    let ri = rail_of(i, d);
    let rj = rail_of(j, d);
    if ri == rj {
        if i < j {
            lemma_count_mono(d, ri, i + 1, j);
        } else {
            lemma_count_mono(d, ri, j + 1, i);
        }
    } else {
        let (lo, hi, plo) = if ri < rj {
            (ri, rj, i)
        } else {
            (rj, ri, j)
        };
        // everything on the lower rail comes before everything on the higher
        lemma_count_mono(d, lo, plo + 1, len);
        assert(count_below(d, lo + 1, len) == count_below(d, lo, len) + count_on_rail(d, lo, len));
        lemma_count_below_mono(d, lo + 1, hi, len);
        let other = if ri < rj {
            j
        } else {
            i
        };
        lemma_count_nonneg(d, hi, other);
    }
}

/// Distributes the characters of `cipher_char` over `rails` rails in the
/// zig-zag pattern and returns the rails concatenated in ascending order;
/// at depth 1 the input comes back unchanged.
pub fn compute_rail_transposition(cipher_char: &Vec<char>, rails: usize) -> (r: Vec<char>)
    requires
        rails >= 1,
    ensures
        r@ == rail_transposed(cipher_char@, rails as int),
        rails == 1 ==> r@ == cipher_char@,
{
    if rails == 1 {
        return cipher_char.clone();
    }
    let d = rails;
    let mut fence: Vec<Vec<char>> = Vec::new();
    let mut k: usize = 0;
    while k < d
        invariant
            k <= d,
            fence@.len() == k,
            forall|r: int| 0 <= r < k ==> #[trigger] fence@[r]@ == Seq::<char>::empty(),
        decreases d - k,
    {
        fence.push(Vec::new());
        k = k + 1;
    }

    let mut rail: usize = 0;
    let mut direction: i64 = 1;
    let mut i: usize = 0;
    let n = cipher_char.len();
    while i < n
        invariant
            2 <= d,
            n == cipher_char@.len(),
            i <= n,
            fence@.len() == d,
            rail == rail_of(i as int, d as int),
            i == 0 ==> direction == 1,
            i >= 1 ==> direction == (if (i - 1) % cycle(d as int) < d - 1 {
                1int
            } else {
                -1int
            }),
            forall|r: int|
                0 <= r < d ==> #[trigger] fence@[r]@ == rail_cells(
                    cipher_char@.take(i as int),
                    d as int,
                    r,
                ),
        decreases n - i,
    {
        proof {
            lemma_rail_of_range(i as int, d as int);
        }
        let ch = cipher_char[i];
        let mut row = Vec::new();
        std::mem::swap(&mut row, &mut fence[rail]);
        row.push(ch);
        std::mem::swap(&mut row, &mut fence[rail]);

        if rail == 0 {
            direction = 1;
        } else if rail == d - 1 {
            direction = -1;
        }

        proof {
            let c = cycle(d as int);
            let p = i as int % c;
            lemma_mod_bound(i as int, c);
            // direction now matches the zig-zag phase of position i
            if 1 <= rail && rail < d - 1 {
                // position 0 lands on rail 0, so here i >= 1 and the incoming
                // direction was set while placing position i - 1
                assert(i >= 1) by {
                    if i == 0 {
                        lemma_small_mod(0nat, c as nat);
                    }
                }
                lemma_add_mod_noop(i as int - 1, 1, c);
                lemma_small_mod(1nat, c as nat);
                let q = (i - 1) as int % c;
                lemma_mod_bound(i as int - 1, c);
                if q + 1 == c {
                    lemma_mod_self_0(c);
                    assert(p == 0);
                } else {
                    lemma_small_mod((q + 1) as nat, c as nat);
                    assert(p == q + 1);
                }
                assert(p != 0 && p != d - 1);
            }
            assert(direction == (if p < d - 1 { 1int } else { -1int }));
            lemma_rail_of_step(i as int, d as int);
        }

        if direction == 1 {
            rail = rail + 1;
        } else {
            rail = rail - 1;
        }

        proof {
            assert(cipher_char@.take(i as int + 1).drop_last() =~= cipher_char@.take(i as int));
            assert forall|r: int| 0 <= r < d implies #[trigger] fence@[r]@ == rail_cells(
                cipher_char@.take(i as int + 1),
                d as int,
                r,
            ) by {
                assert(cipher_char@.take(i as int + 1).last() == cipher_char@[i as int]);
            }
        }
        i = i + 1;
    }

    proof {
        assert(cipher_char@.take(n as int) =~= cipher_char@);
    }

    let mut out: Vec<char> = Vec::new();
    let mut r: usize = 0;
    while r < d
        invariant
            r <= d,
            fence@.len() == d,
            forall|q: int|
                r <= q < d ==> #[trigger] fence@[q]@ == rail_cells(cipher_char@, d as int, q),
            out@ == rails_concat(cipher_char@, d as int, r as int),
        decreases d - r,
    {
        let mut row = Vec::new();
        std::mem::swap(&mut row, &mut fence[r]);
        let mut j: usize = 0;
        let ghost out0 = out@;
        while j < row.len()
            invariant
                j <= row@.len(),
                out@ == out0 + row@.take(j as int),
            decreases row@.len() - j,
        {
            out.push(row[j]);
            j = j + 1;
            proof {
                assert(out0 + row@.take(j as int) =~= (out0 + row@.take(j as int - 1)).push(
                    row@[j as int - 1],
                ));
            }
        }
        proof {
            assert(row@.take(row@.len() as int) =~= row@);
        }
        r = r + 1;
    }
    out
}

/// Rearranges a letter stream along the zig-zag rail pattern of the given
/// depth; identical to the input when the depth is 1.
pub fn transpose(letter_stream: &Vec<char>, rail_depth: usize) -> (r: Vec<char>)
    requires
        rail_depth >= 1,
    ensures
        r@ == rail_transposed(letter_stream@, rail_depth as int),
        rail_depth == 1 ==> r@ == letter_stream@,
{
    compute_rail_transposition(letter_stream, rail_depth)
}

} // verus!
